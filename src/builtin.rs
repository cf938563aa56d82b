//! The built-in animation targets: position, size and rotation of a node.
use vstd::prelude::*;
use crate::fixed::{ONE, floor_div};
use crate::geometry::{MAX_COORD, Node, Vec2};

verus! {

/// `a` moved toward `b` by the fixed-point fraction `p`, rounded toward
/// negative infinity.
pub open spec fn lerp(a: int, b: int, p: int) -> int {
    a + ((b - a) * p) / (ONE as int)
}

/// `v` limited to the coordinate range.
pub open spec fn saturate(v: int) -> int {
    if v > MAX_COORD {
        MAX_COORD as int
    } else if v < -MAX_COORD {
        -MAX_COORD as int
    } else {
        v
    }
}

fn lerp_coord(a: i64, b: i64, p: i64) -> (r: i64)
    requires
        -MAX_COORD <= a <= MAX_COORD,
        -MAX_COORD <= b <= MAX_COORD,
    ensures
        r == saturate(lerp(a as int, b as int, p as int)),
{
    let d: i128 = (b as i128) - (a as i128);
    assert(-0x2_0000_0000_0000 * 0x8000_0000_0000_0000 <= d * p <= 0x2_0000_0000_0000 * 0x8000_0000_0000_0000)
        by (nonlinear_arith)
        requires -0x2_0000_0000_0000 <= d <= 0x2_0000_0000_0000, i64::MIN <= p <= i64::MAX;
    let step = floor_div(d * (p as i128), ONE as i128);
    let v: i128 = (a as i128) + step;
    if v > MAX_COORD as i128 {
        MAX_COORD
    } else if v < -(MAX_COORD as i128) {
        -MAX_COORD
    } else {
        v as i64
    }
}

/// The interpolated value between `previous` and `target`; the target itself
/// when there is no previous value.
pub open spec fn blend(previous: Option<Vec2>, target: Vec2, p: int) -> Vec2 {
    match previous {
        None => target,
        Some(a) => Vec2 {
            x: saturate(lerp(a.x as int, target.x as int, p)) as i64,
            y: saturate(lerp(a.y as int, target.y as int, p)) as i64,
        },
    }
}

fn blend_vec(previous: Option<Vec2>, target: Vec2, p: i64) -> (r: Vec2)
    requires
        target.in_range(),
        previous matches Some(a) ==> a.in_range(),
    ensures
        r == blend(previous, target, p as int),
{
    match previous {
        None => target,
        Some(a) => Vec2 { x: lerp_coord(a.x, target.x, p), y: lerp_coord(a.y, target.y, p) },
    }
}

/// Animates a node's position.
#[derive(Clone, Copy, Debug, PartialEq, Eq, Structural)]
pub struct PositionAnimation(pub Vec2);

/// Animates a node's size.
#[derive(Clone, Copy, Debug, PartialEq, Eq, Structural)]
pub struct SizeAnimation(pub Vec2);

/// Animates a node's rotation, in fixed-point degrees.
#[derive(Clone, Copy, Debug, PartialEq, Eq, Structural)]
pub struct RotationAnimation(pub i64);

impl PositionAnimation {
    pub const NAME: &'static str = "Position";

    pub fn interpolate(&self, previous: Option<&PositionAnimation>, node: &mut Node, progress: i64)
        requires
            self.0.in_range(),
            previous matches Some(a) ==> a.0.in_range(),
        ensures
            *final(node) == (Node {
                position: blend(
                    match previous {
                        Some(a) => Some(a.0),
                        None => None,
                    },
                    self.0,
                    progress as int,
                ),
                ..*old(node)
            }),
    {
        let prev = match previous {
            Some(a) => Some(a.0),
            None => None,
        };
        node.position = blend_vec(prev, self.0, progress);
    }
}

impl SizeAnimation {
    pub const NAME: &'static str = "Size";

    pub fn interpolate(&self, previous: Option<&SizeAnimation>, node: &mut Node, progress: i64)
        requires
            self.0.in_range(),
            previous matches Some(a) ==> a.0.in_range(),
        ensures
            *final(node) == (Node {
                size: blend(
                    match previous {
                        Some(a) => Some(a.0),
                        None => None,
                    },
                    self.0,
                    progress as int,
                ),
                ..*old(node)
            }),
    {
        let prev = match previous {
            Some(a) => Some(a.0),
            None => None,
        };
        node.size = blend_vec(prev, self.0, progress);
    }
}

impl RotationAnimation {
    pub const NAME: &'static str = "Rotation";

    pub fn interpolate(&self, previous: Option<&RotationAnimation>, node: &mut Node, progress: i64)
        requires
            -MAX_COORD <= self.0 <= MAX_COORD,
            previous matches Some(a) ==> -MAX_COORD <= a.0 <= MAX_COORD,
        ensures
            *final(node) == (Node {
                rotation: match previous {
                    None => self.0,
                    Some(a) => saturate(lerp(a.0 as int, self.0 as int, progress as int)) as i64,
                },
                ..*old(node)
            }),
    {
        node.rotation = match previous {
            None => self.0,
            Some(a) => lerp_coord(a.0, self.0, progress),
        };
    }
}

/// A value of one of the built-in animation targets.
#[derive(Clone, Copy, Debug, PartialEq, Eq, Structural)]
pub enum BuiltinTarget {
    Position(PositionAnimation),
    Size(SizeAnimation),
    Rotation(RotationAnimation),
}

/// The type key that a built-in target is registered under: position,
/// size and rotation take the first three keys.
pub open spec fn builtin_type_key(t: BuiltinTarget) -> u64 {
    match t {
        BuiltinTarget::Position(_) => 0,
        BuiltinTarget::Size(_) => 1,
        BuiltinTarget::Rotation(_) => 2,
    }
}

/// Values with equal type keys are of the same target type.
pub proof fn lemma_same_key_same_builtin(a: BuiltinTarget, b: BuiltinTarget)
    requires
        builtin_type_key(a) == builtin_type_key(b),
    ensures
        same_builtin(a, b),
{
}

/// The value is within the coordinate range.
pub open spec fn builtin_in_range(t: BuiltinTarget) -> bool {
    match t {
        BuiltinTarget::Position(p) => p.0.in_range(),
        BuiltinTarget::Size(p) => p.0.in_range(),
        BuiltinTarget::Rotation(r) => -MAX_COORD <= r.0 <= MAX_COORD,
    }
}

/// Both values are of the same target type.
pub open spec fn same_builtin(a: BuiltinTarget, b: BuiltinTarget) -> bool {
    match (a, b) {
        (BuiltinTarget::Position(_), BuiltinTarget::Position(_)) => true,
        (BuiltinTarget::Size(_), BuiltinTarget::Size(_)) => true,
        (BuiltinTarget::Rotation(_), BuiltinTarget::Rotation(_)) => true,
        _ => false,
    }
}

/// `node` after the target `t` was interpolated from `previous` by `p`.
pub open spec fn builtin_applied(node: Node, t: BuiltinTarget, previous: Option<BuiltinTarget>, p: int) -> Node {
    match t {
        BuiltinTarget::Position(v) => Node {
            position: blend(
                match previous {
                    Some(BuiltinTarget::Position(a)) => Some(a.0),
                    _ => None,
                },
                v.0,
                p,
            ),
            ..node
        },
        BuiltinTarget::Size(v) => Node {
            size: blend(
                match previous {
                    Some(BuiltinTarget::Size(a)) => Some(a.0),
                    _ => None,
                },
                v.0,
                p,
            ),
            ..node
        },
        BuiltinTarget::Rotation(v) => Node {
            rotation: match previous {
                Some(BuiltinTarget::Rotation(a)) => saturate(lerp(a.0 as int, v.0 as int, p)) as i64,
                _ => v.0,
            },
            ..node
        },
    }
}

impl BuiltinTarget {
    /// The type key this target is registered under.
    pub fn type_key(&self) -> (r: u64)
        ensures
            r == builtin_type_key(*self),
    {
        match self {
            BuiltinTarget::Position(_) => 0,
            BuiltinTarget::Size(_) => 1,
            BuiltinTarget::Rotation(_) => 2,
        }
    }

    /// Interpolates this target on `node`; false, leaving `node` as it was,
    /// when `previous` is of another target type.
    pub fn interpolate(&self, previous: Option<&BuiltinTarget>, node: &mut Node, progress: i64) -> (r: bool)
        requires
            builtin_in_range(*self),
            previous matches Some(a) ==> builtin_in_range(*a),
        ensures
            r == (previous matches Some(a) ==> same_builtin(*a, *self)),
            r ==> *final(node) == builtin_applied(*old(node), *self, match previous {
                Some(a) => Some(*a),
                None => None,
            }, progress as int),
            !r ==> *final(node) == *old(node),
    {
        match (self, previous) {
            (BuiltinTarget::Position(v), None) => {
                v.interpolate(None, node, progress);
                true
            },
            (BuiltinTarget::Position(v), Some(BuiltinTarget::Position(a))) => {
                v.interpolate(Some(a), node, progress);
                true
            },
            (BuiltinTarget::Size(v), None) => {
                v.interpolate(None, node, progress);
                true
            },
            (BuiltinTarget::Size(v), Some(BuiltinTarget::Size(a))) => {
                v.interpolate(Some(a), node, progress);
                true
            },
            (BuiltinTarget::Rotation(v), None) => {
                v.interpolate(None, node, progress);
                true
            },
            (BuiltinTarget::Rotation(v), Some(BuiltinTarget::Rotation(a))) => {
                v.interpolate(Some(a), node, progress);
                true
            },
            _ => false,
        }
    }
}

} // verus!
