//! Anchors, declared node geometry and nested coordinate frames.
//!
//! Coordinates and sizes are fixed-point numbers of pixels (see `fixed`).
use vstd::prelude::*;
use crate::fixed::{ONE, floor_div};

verus! {

/// The largest magnitude of a coordinate: 2^32 pixels.
pub const MAX_COORD: i64 = 0x1_0000_0000_0000;

/// A point or size in fixed-point pixels.
#[derive(Clone, Copy, Debug, PartialEq, Eq, Structural)]
pub struct Vec2 {
    pub x: i64,
    pub y: i64,
}

/// An integer point or size, such as a resolution.
#[derive(Clone, Copy, Debug, PartialEq, Eq, Structural)]
pub struct UVec2 {
    pub x: u32,
    pub y: u32,
}

impl Vec2 {
    pub open spec fn in_range(self) -> bool {
        -MAX_COORD <= self.x <= MAX_COORD && -MAX_COORD <= self.y <= MAX_COORD
    }

    pub fn new(x: i64, y: i64) -> (r: Self)
        ensures
            r == (Vec2 { x, y }),
    {
        Vec2 { x, y }
    }
}

/// The point of a node's box that its position refers to.
#[derive(Clone, Copy, Debug, PartialEq, Eq, Structural)]
pub enum Anchor {
    TopLeft,
    TopCenter,
    TopRight,
    CenterLeft,
    Center,
    CenterRight,
    BottomLeft,
    BottomCenter,
    BottomRight,
}

/// How many half sizes the anchor lies right of the left edge.
pub open spec fn half_steps_x(a: Anchor) -> int {
    match a {
        Anchor::TopLeft | Anchor::CenterLeft | Anchor::BottomLeft => 0,
        Anchor::TopCenter | Anchor::Center | Anchor::BottomCenter => 1,
        _ => 2,
    }
}

/// How many half sizes the anchor lies below the top edge.
pub open spec fn half_steps_y(a: Anchor) -> int {
    match a {
        Anchor::TopLeft | Anchor::TopCenter | Anchor::TopRight => 0,
        Anchor::CenterLeft | Anchor::Center | Anchor::CenterRight => 1,
        _ => 2,
    }
}

/// The offset of anchor `a` from the top-left corner of a box of `size`,
/// rounded toward negative infinity.
pub open spec fn anchor_offset(a: Anchor, size: Vec2) -> (int, int) {
    ((size.x * half_steps_x(a)) / 2, (size.y * half_steps_y(a)) / 2)
}

impl Anchor {
    /// The anchor as a fixed-point offset from the center of a unit box:
    /// `TopLeft` is (-1/2, -1/2) and `CenterRight` is (1/2, 0).
    pub fn as_vec2(&self) -> (r: Vec2)
        ensures
            r.x == (half_steps_x(*self) - 1) * (ONE as int) / 2,
            r.y == (half_steps_y(*self) - 1) * (ONE as int) / 2,
    {
        let h: i64 = ONE / 2;
        match self {
            Anchor::TopLeft => Vec2 { x: -h, y: -h },
            Anchor::TopCenter => Vec2 { x: 0, y: -h },
            Anchor::TopRight => Vec2 { x: h, y: -h },
            Anchor::CenterLeft => Vec2 { x: -h, y: 0 },
            Anchor::Center => Vec2 { x: 0, y: 0 },
            Anchor::CenterRight => Vec2 { x: h, y: 0 },
            Anchor::BottomLeft => Vec2 { x: -h, y: h },
            Anchor::BottomCenter => Vec2 { x: 0, y: h },
            Anchor::BottomRight => Vec2 { x: h, y: h },
        }
    }

    fn steps(&self) -> (r: (i64, i64))
        ensures
            r.0 == half_steps_x(*self),
            r.1 == half_steps_y(*self),
    {
        match self {
            Anchor::TopLeft => (0, 0),
            Anchor::TopCenter => (1, 0),
            Anchor::TopRight => (2, 0),
            Anchor::CenterLeft => (0, 1),
            Anchor::Center => (1, 1),
            Anchor::CenterRight => (2, 1),
            Anchor::BottomLeft => (0, 2),
            Anchor::BottomCenter => (1, 2),
            Anchor::BottomRight => (2, 2),
        }
    }
}

fn half_of(v: i64, steps: i64) -> (r: i64)
    requires
        -MAX_COORD <= v <= MAX_COORD,
        0 <= steps <= 2,
    ensures
        r == (v * steps) / 2,
        -MAX_COORD <= r <= MAX_COORD,
{
    assert(-2 * MAX_COORD <= v * steps <= 2 * MAX_COORD) by (nonlinear_arith)
        requires -MAX_COORD <= v <= MAX_COORD, 0 <= steps <= 2;
    let r = floor_div((v as i128) * (steps as i128), 2);
    r as i64
}

/// The declared geometry of a node, relative to its parent's coordinate frame.
#[derive(Clone, Copy, Debug, PartialEq, Eq, Structural)]
pub struct Node {
    pub anchor: Anchor,
    pub position: Vec2,
    pub size: Vec2,
    /// Rotation about the node's center, in fixed-point degrees.
    pub rotation: i64,
}

/// The point of `node`'s box that `anchor` names.
pub open spec fn position_at(node: Node, anchor: Anchor) -> (int, int) {
    let own = anchor_offset(node.anchor, node.size);
    let other = anchor_offset(anchor, node.size);
    (node.position.x - own.0 + other.0, node.position.y - own.1 + other.1)
}

impl Node {
    pub open spec fn in_range(self) -> bool {
        self.position.in_range() && self.size.in_range()
    }

    /// The point of this node's box that `anchor` names.
    ///
    /// The top-left corner is found from the node's own anchor first, then
    /// `anchor` is measured from there; halves round toward negative infinity.
    pub fn calculate_position(&self, anchor: Anchor) -> (r: Vec2)
        requires
            self.in_range(),
        ensures
            r.x == position_at(*self, anchor).0,
            r.y == position_at(*self, anchor).1,
    {
        let (ox, oy) = self.anchor.steps();
        let (ax, ay) = anchor.steps();
        let x = self.position.x - half_of(self.size.x, ox) + half_of(self.size.x, ax);
        let y = self.position.y - half_of(self.size.y, oy) + half_of(self.size.y, ay);
        Vec2 { x, y }
    }
}

/// The top-left corner of a box of `size` whose `anchor` point is `position`.
pub open spec fn origin(anchor: Anchor, position: Vec2, size: Vec2) -> (int, int) {
    position_at(Node { anchor, position, size, rotation: 0 }, Anchor::TopLeft)
}

/// The center of a box of `size` whose `anchor` point is `position`.
pub open spec fn center(anchor: Anchor, position: Vec2, size: Vec2) -> (int, int) {
    position_at(Node { anchor, position, size, rotation: 0 }, Anchor::Center)
}

/// Whatever the anchor, a box's center lies half its size (rounded toward
/// negative infinity) right of and below its top-left corner.
pub proof fn lemma_center_is_origin_plus_half_size(anchor: Anchor, position: Vec2, size: Vec2)
    ensures
        center(anchor, position, size).0 == origin(anchor, position, size).0 + size.x / 2,
        center(anchor, position, size).1 == origin(anchor, position, size).1 + size.y / 2,
{
    assert(size.x * 0 == 0 && size.y * 0 == 0);
    assert(size.x * 1 == size.x && size.y * 1 == size.y);
}

/// A ratio of two integers; its value is `num / den`.
#[derive(Clone, Copy, Debug, PartialEq, Eq, Structural)]
pub struct Ratio {
    pub num: i128,
    pub den: i128,
}

/// The scale of a node's box along both axes.
#[derive(Clone, Copy, Debug, PartialEq, Eq, Structural)]
pub struct Scale {
    pub x: Ratio,
    pub y: Ratio,
}

/// How a nested coordinate space maps into its parent's space.
#[derive(Clone, Copy, Debug, PartialEq, Eq, Structural)]
pub struct LayoutInfo {
    /// The parent layout's resolution; the scale numerator.
    pub parent_resolution: UVec2,
    /// This layout's resolution; the scale denominator.
    pub resolution: UVec2,
    /// The logical size of this coordinate space, in fixed-point pixels.
    pub canvas_size: Vec2,
}

impl LayoutInfo {
    pub open spec fn in_range(self) -> bool {
        self.canvas_size.in_range()
    }

    /// The frame of a root layout or a group: no rescaling.
    pub fn unscaled(canvas_size: Vec2) -> (r: Self)
        ensures
            r.parent_resolution == (UVec2 { x: 1, y: 1 }),
            r.resolution == (UVec2 { x: 1, y: 1 }),
            r.canvas_size == canvas_size,
    {
        LayoutInfo { parent_resolution: UVec2 { x: 1, y: 1 }, resolution: UVec2 { x: 1, y: 1 }, canvas_size }
    }

    /// The position of `child`'s `anchor` point relative to the center of
    /// this frame, with Y pointing up.
    pub fn get_child_world_position(&self, child: &Node, anchor: Anchor) -> (r: Vec2)
        requires
            self.in_range(),
            child.in_range(),
        ensures
            r.x == position_at(*child, anchor).0 - self.canvas_size.x / 2,
            r.y == self.canvas_size.y / 2 - position_at(*child, anchor).1,
    {
        let p = child.calculate_position(anchor);
        let hx = half_of(self.canvas_size.x, 1);
        let hy = half_of(self.canvas_size.y, 1);
        Vec2 { x: p.x - hx, y: hy - p.y }
    }

    /// The scale that `node`, the host of this frame, applies to its
    /// children: the resolution scale times the node's size over the canvas size.
    pub fn calculate_self_node_scale(&self, node: &Node) -> (r: Scale)
        requires
            node.in_range(),
        ensures
            r.x.num == self.parent_resolution.x * node.size.x,
            r.x.den == self.resolution.x * self.canvas_size.x,
            r.y.num == self.parent_resolution.y * node.size.y,
            r.y.den == self.resolution.y * self.canvas_size.y,
    {
        proof {
            assert(-(0x1_0000_0000 * 0x1_0000_0000_0000) <= self.parent_resolution.x * node.size.x
                <= 0x1_0000_0000 * 0x1_0000_0000_0000) by (nonlinear_arith)
                requires 0 <= self.parent_resolution.x <= 0x1_0000_0000, -0x1_0000_0000_0000 <= node.size.x <= 0x1_0000_0000_0000;
            assert(-(0x1_0000_0000 * 0x1_0000_0000_0000) <= self.parent_resolution.y * node.size.y
                <= 0x1_0000_0000 * 0x1_0000_0000_0000) by (nonlinear_arith)
                requires 0 <= self.parent_resolution.y <= 0x1_0000_0000, -0x1_0000_0000_0000 <= node.size.y <= 0x1_0000_0000_0000;
            assert(-(0x1_0000_0000 * 0x8000_0000_0000_0000) <= self.resolution.x * self.canvas_size.x
                <= 0x1_0000_0000 * 0x8000_0000_0000_0000) by (nonlinear_arith)
                requires 0 <= self.resolution.x <= 0x1_0000_0000, i64::MIN <= self.canvas_size.x <= i64::MAX;
            assert(-(0x1_0000_0000 * 0x8000_0000_0000_0000) <= self.resolution.y * self.canvas_size.y
                <= 0x1_0000_0000 * 0x8000_0000_0000_0000) by (nonlinear_arith)
                requires 0 <= self.resolution.y <= 0x1_0000_0000, i64::MIN <= self.canvas_size.y <= i64::MAX;
        }
        Scale {
            x: Ratio {
                num: (self.parent_resolution.x as i128) * (node.size.x as i128),
                den: (self.resolution.x as i128) * (self.canvas_size.x as i128),
            },
            y: Ratio {
                num: (self.parent_resolution.y as i128) * (node.size.y as i128),
                den: (self.resolution.y as i128) * (self.canvas_size.y as i128),
            },
        }
    }
}

} // verus!
