use yabuil::builtin::{PositionAnimation, RotationAnimation, SizeAnimation};
use yabuil::fixed::ONE;
use yabuil::geometry::{Anchor, Node, Vec2, MAX_COORD};

fn px(x: i64, y: i64) -> Vec2 {
    Vec2::new(x * ONE, y * ONE)
}

fn base() -> Node {
    Node { anchor: Anchor::Center, position: px(1, 1), size: px(5, 5), rotation: 0 }
}

#[test]
fn first_keyframe_snaps_to_its_value() {
    let mut n = base();
    PositionAnimation(px(40, 50)).interpolate(None, &mut n, 0);
    assert_eq!(n.position, px(40, 50));
    assert_eq!(n.size, px(5, 5));
}

#[test]
fn position_halfway() {
    let mut n = base();
    PositionAnimation(px(100, 0)).interpolate(Some(&PositionAnimation(px(0, 100))), &mut n, ONE / 2);
    assert_eq!(n.position, px(50, 50));
}

#[test]
fn size_quarter_and_end() {
    let mut n = base();
    let from = SizeAnimation(px(0, 0));
    SizeAnimation(px(40, 80)).interpolate(Some(&from), &mut n, ONE / 4);
    assert_eq!(n.size, px(10, 20));
    SizeAnimation(px(40, 80)).interpolate(Some(&from), &mut n, ONE);
    assert_eq!(n.size, px(40, 80));
}

#[test]
fn rotation_overshoots_and_saturates() {
    let mut n = base();
    RotationAnimation(90 * ONE).interpolate(Some(&RotationAnimation(0)), &mut n, ONE + ONE / 2);
    assert_eq!(n.rotation, 135 * ONE);
    RotationAnimation(MAX_COORD).interpolate(Some(&RotationAnimation(-MAX_COORD)), &mut n, 4 * ONE);
    assert_eq!(n.rotation, MAX_COORD);
    assert_eq!(RotationAnimation::NAME, "Rotation");
    assert_eq!(PositionAnimation::NAME, "Position");
    assert_eq!(SizeAnimation::NAME, "Size");
}
