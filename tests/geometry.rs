use yabuil::fixed::ONE;
use yabuil::geometry::{Anchor, LayoutInfo, Node, UVec2, Vec2};

const ALL: [Anchor; 9] = [
    Anchor::TopLeft,
    Anchor::TopCenter,
    Anchor::TopRight,
    Anchor::CenterLeft,
    Anchor::Center,
    Anchor::CenterRight,
    Anchor::BottomLeft,
    Anchor::BottomCenter,
    Anchor::BottomRight,
];

fn px(x: i64, y: i64) -> Vec2 {
    Vec2::new(x * ONE, y * ONE)
}

fn node(anchor: Anchor, position: Vec2, size: Vec2) -> Node {
    Node { anchor, position, size, rotation: 0 }
}

#[test]
fn anchor_as_vec2() {
    assert_eq!(Anchor::TopLeft.as_vec2(), Vec2::new(-32768, -32768));
    assert_eq!(Anchor::CenterRight.as_vec2(), Vec2::new(32768, 0));
    assert_eq!(Anchor::BottomCenter.as_vec2(), Vec2::new(0, 32768));
    assert_eq!(Anchor::Center.as_vec2(), Vec2::new(0, 0));
}

#[test]
fn center_is_origin_plus_half_size_for_every_anchor() {
    for size in [px(100, 40), Vec2::new(7, 13), Vec2::new(-9, 4)] {
        for a in ALL {
            let n = node(a, px(10, 20), size);
            let origin = n.calculate_position(Anchor::TopLeft);
            let center = n.calculate_position(Anchor::Center);
            assert_eq!(center.x, origin.x + size.x.div_euclid(2));
            assert_eq!(center.y, origin.y + size.y.div_euclid(2));
        }
    }
}

#[test]
fn own_anchor_is_the_position() {
    for a in ALL {
        let n = node(a, px(33, -7), px(80, 60));
        assert_eq!(n.calculate_position(a), px(33, -7));
    }
}

#[test]
fn calculate_position_examples() {
    let n = node(Anchor::CenterRight, px(100, 100), px(40, 20));
    assert_eq!(n.calculate_position(Anchor::TopLeft), px(60, 90));
    assert_eq!(n.calculate_position(Anchor::BottomRight), px(100, 110));
    assert_eq!(n.calculate_position(Anchor::Center), px(80, 100));
}

#[test]
fn child_world_position_is_centered_and_flipped() {
    let info = LayoutInfo::unscaled(px(1920, 1080));
    let child = node(Anchor::TopLeft, px(0, 0), px(100, 100));
    assert_eq!(info.get_child_world_position(&child, Anchor::TopLeft), px(-960, 540));
    assert_eq!(info.get_child_world_position(&child, Anchor::Center), px(-910, 490));
}

#[test]
fn nested_layout_scale() {
    let info = LayoutInfo {
        parent_resolution: UVec2 { x: 1920, y: 1080 },
        resolution: UVec2 { x: 1280, y: 720 },
        canvas_size: px(1280, 720),
    };
    let host = node(Anchor::TopLeft, px(0, 0), px(640, 360));
    let s = info.calculate_self_node_scale(&host);
    // resolution scale (1.5, 1.5) times allocation ratio (0.5, 0.5)
    assert_eq!(s.x.num * 4, s.x.den * 3);
    assert_eq!(s.y.num * 4, s.y.den * 3);
    assert_eq!(1920 * 2, 1280 * 3);
}

#[test]
fn unscaled_frame_scale_is_size_over_canvas() {
    let info = LayoutInfo::unscaled(px(200, 100));
    let host = node(Anchor::TopLeft, px(0, 0), px(200, 100));
    let s = info.calculate_self_node_scale(&host);
    assert_eq!(s.x.num, s.x.den);
    assert_eq!(s.y.num, s.y.den);
}
