use yabuil::animation::{AnimationTrack, DynamicAnimationTarget, Keyframes, LayoutAnimation, RawKeyframe};
use yabuil::curve::TimeBezierCurve;
use yabuil::builtin::{BuiltinTarget, PositionAnimation, RotationAnimation, SizeAnimation};
use yabuil::engine::{apply_builtin_call, update_node_animations, NamedAnimation};
use yabuil::fixed::ONE;
use yabuil::geometry::{Anchor, UVec2, Vec2};
use yabuil::layout::{GroupNodeData, ImageNodeData, Layout, LayoutNode, LayoutNodeInner};
use yabuil::playback::PlaybackState;
use yabuil::scene::{spawn_layout, Scene};

fn node(id: &str, inner: LayoutNodeInner) -> LayoutNode {
    LayoutNode {
        id: id.to_string(),
        position: Vec2::new(0, 0),
        size: Vec2::new(10 * ONE, 10 * ONE),
        rotation: 0,
        anchor: Anchor::TopLeft,
        inner,
        attributes: vec![],
    }
}

fn target(key: u64, value: i32) -> DynamicAnimationTarget<i32> {
    DynamicAnimationTarget::new(format!("T{key}"), format!("t::T{key}"), key, value)
}

fn raw(t: usize, targets: Vec<DynamicAnimationTarget<i32>>) -> RawKeyframe<i32> {
    RawKeyframe { timestamp_ms: t, time_scale: TimeBezierCurve::Linear, targets }
}

fn setup() -> (Scene, Vec<NamedAnimation<i32>>) {
    let b = node("b", LayoutNodeInner::Image(ImageNodeData { path: "b.png".to_string(), tint: None }));
    let g = node("g", LayoutNodeInner::Group(GroupNodeData { nodes: vec![b] }));
    let layout = Layout {
        resolution: None,
        canvas_size: UVec2 { x: 100, y: 100 },
        nodes: vec![g],
        animations: vec!["intro".to_string()],
    };
    let mut scene = Scene::new();
    spawn_layout(&mut scene, &layout, &vec![]).unwrap();
    let tracks = vec![
        AnimationTrack {
            node_path: vec!["g".to_string(), "b".to_string()],
            keyframes: Keyframes::flatten_raw_keyframes(vec![
                raw(0, vec![target(1, 0), target(2, 5)]),
                raw(100, vec![target(1, 10)]),
            ]),
        },
        AnimationTrack {
            node_path: vec!["nope".to_string()],
            keyframes: Keyframes::flatten_raw_keyframes(vec![raw(100, vec![target(1, 1)])]),
        },
    ];
    let anims = vec![NamedAnimation { name: "intro".to_string(), animation: LayoutAnimation { tracks } }];
    (scene, anims)
}

#[test]
fn stopped_animations_make_no_calls() {
    let (mut scene, anims) = setup();
    assert!(update_node_animations(&mut scene, 0, 16, &anims).is_empty());
    assert!(update_node_animations(&mut scene, 2, 16, &anims).is_empty());
}

#[test]
fn playing_animation_interpolates_found_nodes() {
    let (mut scene, anims) = setup();
    let mut p = scene.take_playback(0).unwrap();
    p.play_animation("intro");
    scene.restore_playback(0, Some(p));
    let calls = update_node_animations(&mut scene, 0, 50, &anims);
    assert_eq!(calls.len(), 2);
    for c in &calls {
        assert_eq!(c.target, 2);
        assert_eq!(c.time_ms, 50);
        assert_eq!((c.animation, c.track), (0, 0));
    }
    assert_eq!((calls[0].channel, calls[1].channel), (0, 1));
    let first = calls.iter().find(|c| c.channel == 0).unwrap();
    assert_eq!(first.sample.index, 1);
    assert_eq!(first.sample.previous, Some(0));
    assert_eq!(first.sample.progress, ONE / 2);
    let second = calls.iter().find(|c| c.channel == 1).unwrap();
    assert!(second.sample.reached_end);
    let state = scene.node(0).playback.as_ref().unwrap().playback_state("intro");
    assert_eq!(state, Some(PlaybackState::Playing));
    let calls = update_node_animations(&mut scene, 0, 60, &anims);
    assert_eq!(calls.len(), 2);
    let state = scene.node(0).playback.as_ref().unwrap().playback_state("intro");
    assert_eq!(state, Some(PlaybackState::Stopped));
}

fn builtin_raw(t: usize, targets: Vec<DynamicAnimationTarget<BuiltinTarget>>) -> RawKeyframe<BuiltinTarget> {
    RawKeyframe { timestamp_ms: t, time_scale: TimeBezierCurve::Linear, targets }
}

fn position(x: i64, y: i64) -> DynamicAnimationTarget<BuiltinTarget> {
    DynamicAnimationTarget::new(
        "Position".to_string(),
        "builtin::Position".to_string(),
        0,
        BuiltinTarget::Position(PositionAnimation(Vec2::new(x * ONE, y * ONE))),
    )
}

#[test]
fn builtin_position_is_interpolated_on_the_target() {
    let (mut scene, _) = setup();
    let anims = vec![NamedAnimation {
        name: "intro".to_string(),
        animation: LayoutAnimation {
            tracks: vec![AnimationTrack {
                node_path: vec!["g".to_string(), "b".to_string()],
                keyframes: Keyframes::flatten_raw_keyframes(vec![
                    builtin_raw(0, vec![position(0, 0)]),
                    builtin_raw(100, vec![position(100, 40)]),
                ]),
            }],
        },
    }];
    let mut p = scene.take_playback(0).unwrap();
    p.play_animation("intro");
    scene.restore_playback(0, Some(p));
    let calls = update_node_animations(&mut scene, 0, 25, &anims);
    assert_eq!(calls.len(), 1);
    apply_builtin_call(&mut scene, &calls[0], &anims);
    assert_eq!(scene.node(2).node.position, Vec2::new(25 * ONE, 10 * ONE));
}

#[test]
fn builtin_type_keys() {
    assert_eq!(BuiltinTarget::Position(PositionAnimation(Vec2::new(0, 0))).type_key(), 0);
    assert_eq!(BuiltinTarget::Size(SizeAnimation(Vec2::new(0, 0))).type_key(), 1);
    assert_eq!(BuiltinTarget::Rotation(RotationAnimation(0)).type_key(), 2);
}
