use yabuil::fixed::ONE;
use yabuil::geometry::{Anchor, UVec2, Vec2};
use yabuil::layout::{
    Color, GroupNodeData, ImageNodeData, Layout, LayoutNode, LayoutNodeData, LayoutNodeInner, NodeKind,
    TextAlignment, TextNodeData,
};
use yabuil::scene::{
    spawn_layout, LayoutAsset, LayoutNodeId, NodeEntityError, NodePayload, Scene, SpawnLayoutError, ZIndex,
};

fn px(x: i64, y: i64) -> Vec2 {
    Vec2::new(x * ONE, y * ONE)
}

fn leaf(id: &str, inner: LayoutNodeInner) -> LayoutNode {
    LayoutNode {
        id: id.to_string(),
        position: px(10, 10),
        size: px(100, 50),
        rotation: 0,
        anchor: Anchor::TopLeft,
        inner,
        attributes: vec![],
    }
}

fn image(id: &str) -> LayoutNode {
    leaf(id, LayoutNodeInner::Image(ImageNodeData { path: format!("{id}.png"), tint: None }))
}

fn group(id: &str, nodes: Vec<LayoutNode>) -> LayoutNode {
    leaf(id, LayoutNodeInner::Group(GroupNodeData { nodes }))
}

fn sub(id: &str, path: &str) -> LayoutNode {
    let mut n = leaf(id, LayoutNodeInner::Layout(LayoutNodeData { path: path.to_string() }));
    n.size = px(640, 360);
    n
}

fn layout(nodes: Vec<LayoutNode>) -> Layout {
    Layout { resolution: None, canvas_size: UVec2 { x: 1920, y: 1080 }, nodes, animations: vec!["intro".to_string()] }
}

fn path(ids: &[&str]) -> Vec<String> {
    ids.iter().map(|s| s.to_string()).collect()
}

#[test]
fn spawn_creates_one_node_per_authored_node() {
    let mut scene = Scene::new();
    let l = layout(vec![image("a"), group("g", vec![image("b"), image("c")]), image("d")]);
    let spawned = spawn_layout(&mut scene, &l, &vec![]).unwrap();
    assert_eq!(spawned.root, 0);
    assert_eq!(scene.len(), 6);
    let root = scene.node(0);
    assert_eq!(root.kind, NodeKind::Layout);
    assert_eq!(root.children, vec![1, 2, 5]);
    assert_eq!(root.subtree_end, 6);
    assert_eq!(root.layout_info.unwrap().canvas_size, px(1920, 1080));
    assert!(root.playback.as_ref().unwrap().playback_state("intro").is_some());
    let g = scene.node(2);
    assert_eq!(g.kind, NodeKind::Group);
    assert_eq!(g.children, vec![3, 4]);
    assert_eq!(g.layout_info.unwrap().canvas_size, px(100, 50));
    assert_eq!(scene.node(3).parent, Some(2));
    assert_eq!(scene.node(1).subtree_end, 2);
    assert_eq!(scene.node(3).subtree_end, 4);
    assert_eq!(scene.node(4).subtree_end, 5);
    assert_eq!(g.subtree_end, 5);
    assert_eq!(scene.node(4).node_id.qualified(), path(&["g", "c"]));
    assert_eq!(scene.node(4).node_id.name(), "c");
}

#[test]
fn attributes_apply_after_each_subtree() {
    let mut scene = Scene::new();
    let l = layout(vec![image("a"), group("g", vec![image("b"), image("c")]), image("d")]);
    let spawned = spawn_layout(&mut scene, &l, &vec![]).unwrap();
    assert_eq!(spawned.apply_order, vec![3, 4, 1, 2, 5]);
}

#[test]
fn nested_layout_gets_a_scaled_frame() {
    let mut scene = Scene::new();
    let mut inner = layout(vec![image("x")]);
    inner.canvas_size = UVec2 { x: 1280, y: 720 };
    let assets = vec![LayoutAsset { path: "inner.layout".to_string(), layout: inner }];
    let outer = layout(vec![sub("panel", "inner.layout")]);
    spawn_layout(&mut scene, &outer, &assets).unwrap();
    assert_eq!(scene.len(), 3);
    let panel = scene.node(1);
    assert_eq!(panel.kind, NodeKind::Layout);
    let info = panel.layout_info.unwrap();
    assert_eq!(info.parent_resolution, UVec2 { x: 1920, y: 1080 });
    assert_eq!(info.resolution, UVec2 { x: 1280, y: 720 });
    assert_eq!(info.canvas_size, px(1280, 720));
    assert_eq!(scene.node(2).parent, Some(1));
    assert_eq!(scene.node(2).node_id.qualified(), path(&["panel", "x"]));
}

#[test]
fn missing_nested_layout_leaves_nothing() {
    let mut scene = Scene::new();
    spawn_layout(&mut scene, &layout(vec![image("first")]), &vec![]).unwrap();
    let before = scene.len();
    let broken = layout(vec![image("a"), group("g", vec![image("b"), sub("s", "missing.layout")])]);
    assert_eq!(spawn_layout(&mut scene, &broken, &vec![]).err(), Some(SpawnLayoutError::NotLoaded));
    assert_eq!(scene.len(), before);
    assert_eq!(scene.node(1).id, "first");
}

#[test]
fn self_containing_layout_is_refused() {
    let mut scene = Scene::new();
    let looped = layout(vec![sub("me", "loop.layout")]);
    let assets = vec![LayoutAsset { path: "loop.layout".to_string(), layout: layout(vec![sub("me", "loop.layout")]) }];
    assert_eq!(spawn_layout(&mut scene, &looped, &assets).err(), Some(SpawnLayoutError::Cyclic));
    assert_eq!(scene.len(), 0);
}

#[test]
fn z_index_follows_document_order() {
    let mut scene = Scene::new();
    let l = layout(vec![image("a"), group("g", vec![image("b"), image("c")]), image("d")]);
    spawn_layout(&mut scene, &l, &vec![]).unwrap();
    assert_eq!(scene.node(1).z_index, ZIndex::NeedsRecalculation);
    assert!(scene.refresh_z_index_if_dirty(0));
    let zs: Vec<ZIndex> = (0..6).map(|i| scene.node(i).z_index).collect();
    let expected = vec![
        ZIndex::Calculated(0),
        ZIndex::Calculated(0),
        ZIndex::Calculated(0),
        ZIndex::Calculated(1),
        ZIndex::Calculated(2),
        ZIndex::Calculated(3),
    ];
    assert_eq!(zs, expected);
    assert!(!scene.refresh_z_index_if_dirty(0));
    scene.mark_z_index_dirty(4);
    assert!(scene.refresh_z_index_if_dirty(0));
    let again: Vec<ZIndex> = (0..6).map(|i| scene.node(i).z_index).collect();
    assert_eq!(again, expected);
}

#[test]
fn descendants_by_path() {
    let mut scene = Scene::new();
    let l = layout(vec![image("a"), group("g", vec![image("b"), image("c")])]);
    spawn_layout(&mut scene, &l, &vec![]).unwrap();
    assert_eq!(scene.try_get_descendant_id(0, &path(&["g", "c"])), Some(4));
    assert_eq!(scene.try_get_descendant_id(0, &path(&["a"])), Some(1));
    assert_eq!(scene.try_get_descendant_id(0, &path(&[])), Some(0));
    assert_eq!(scene.try_get_descendant_id(0, &path(&["g", "zz"])), None);
    assert_eq!(scene.try_get_descendant_id(0, &path(&["a", "b"])), None);
}

#[test]
fn transform_of_a_child_in_a_frame() {
    let mut scene = Scene::new();
    let mut t = leaf("t", LayoutNodeInner::Text(TextNodeData {
        text: "hi".to_string(),
        size: 12 * ONE,
        font: "f.ttf".to_string(),
        color: Color { r: 0, g: 0, b: 0, a: 255 },
        alignment: TextAlignment::Left,
    }));
    t.rotation = 90 * ONE;
    spawn_layout(&mut scene, &layout(vec![t]), &vec![]).unwrap();
    assert_eq!(scene.node(1).visual_anchor, Anchor::CenterLeft);
    assert!(scene.compute_transform(1).unwrap().translation.is_none());
    scene.refresh_z_index(0);
    let tr = scene.compute_transform(1).unwrap();
    let tl = tr.translation.unwrap();
    // left edge, vertical center: (10, 35) in layout space
    assert_eq!(tl.position, px(10 - 960, 540 - 35));
    assert_eq!(tl.z, 0);
    assert_eq!(tr.rotation, 90 * ONE);
    assert!(tr.scale.is_none());
}

#[test]
fn transform_of_a_group_scales_by_its_size() {
    let mut scene = Scene::new();
    spawn_layout(&mut scene, &layout(vec![group("g", vec![])]), &vec![]).unwrap();
    let tr = scene.compute_transform(1).unwrap();
    let s = tr.scale.unwrap();
    assert_eq!(s.x.num, s.x.den);
}

#[test]
fn geometry_can_be_changed() {
    let mut scene = Scene::new();
    spawn_layout(&mut scene, &layout(vec![image("a")]), &vec![]).unwrap();
    let mut n = scene.node(1).node;
    n.position = px(0, 0);
    scene.set_node(1, n);
    assert_eq!(scene.node(1).node.position, px(0, 0));
}

#[test]
fn playback_can_be_taken_and_restored() {
    let mut scene = Scene::new();
    spawn_layout(&mut scene, &layout(vec![image("a")]), &vec![]).unwrap();
    let mut p = scene.take_playback(0).unwrap();
    assert!(scene.node(0).playback.is_none());
    assert!(p.play_animation("intro"));
    scene.restore_playback(0, Some(p));
    assert!(scene.node(0).playback.as_ref().unwrap().is_playing_any());
}

#[test]
fn node_ids() {
    let root = LayoutNodeId::root();
    assert_eq!(root.name(), "__root");
    assert_eq!(root.qualified(), Vec::<String>::new());
    let c = root.join("menu").join("button");
    assert_eq!(c.name(), "button");
    assert_eq!(c.qualified(), path(&["menu", "button"]));
}

#[test]
fn child_by_id_descends_through_groups() {
    let l = layout(vec![image("a"), group("g", vec![image("b"), group("h", vec![image("c")])])]);
    assert_eq!(l.child_by_id(&path(&["g", "h", "c"])).unwrap().id, "c");
    assert_eq!(l.child_by_id(&path(&["a"])).unwrap().id, "a");
    assert!(l.child_by_id(&path(&["a", "b"])).is_none());
    assert!(l.child_by_id(&path(&["q"])).is_none());
    assert_eq!(l.get_resolution(), UVec2 { x: 1920, y: 1080 });
}

#[test]
fn navigation() {
    let mut scene = Scene::new();
    let l = layout(vec![image("a"), group("g", vec![image("b"), image("c")])]);
    spawn_layout(&mut scene, &l, &vec![]).unwrap();
    assert_eq!(scene.get_parent(3), Ok(2));
    assert_eq!(scene.get_parent(0), Err(NodeEntityError::NoParent(0)));
    assert_eq!(scene.get_sibling(3, &path(&["c"])), Ok(4));
    assert_eq!(scene.get_sibling(1, &path(&["g", "b"])), Ok(3));
    assert_eq!(scene.get_sibling(3, &path(&["x"])), Err(NodeEntityError::NoChildWithName(2, "x".to_string())));
    assert_eq!(scene.get_child(0, &path(&["g", "b", "deeper"])), Err(NodeEntityError::NoChildren(3)));
    assert_eq!(scene.get_child(2, &path(&["b"])), Ok(3));
    assert_eq!(scene.get_child(2, &path(&["q"])), Err(NodeEntityError::NoChildWithName(2, "q".to_string())));
    assert_eq!(scene.get_child(0, &path(&["g", "q"])), Err(NodeEntityError::NoChildWithName(2, "q".to_string())));
    assert_eq!(scene.get_root(4), 0);
    spawn_layout(&mut scene, &l, &vec![]).unwrap();
    assert_eq!(scene.get_root(9), 5);
}

#[test]
fn layout_dependencies_in_document_order() {
    let t = leaf("t", LayoutNodeInner::Text(TextNodeData {
        text: "x".to_string(),
        size: ONE,
        font: "font.ttf".to_string(),
        color: Color { r: 1, g: 2, b: 3, a: 4 },
        alignment: TextAlignment::Right,
    }));
    let l = layout(vec![image("a"), group("g", vec![t, sub("s", "inner.layout")]), leaf("n", LayoutNodeInner::Null)]);
    assert_eq!(l.dependencies(), path(&["a.png", "font.ttf", "inner.layout"]));
}

#[test]
fn payloads_are_copied() {
    let mut scene = Scene::new();
    let mut tinted = image("t");
    if let LayoutNodeInner::Image(d) = &mut tinted.inner {
        d.tint = Some(Color { r: 9, g: 8, b: 7, a: 6 });
    }
    spawn_layout(&mut scene, &layout(vec![image("a"), tinted]), &vec![]).unwrap();
    match &scene.node(1).payload {
        NodePayload::Image { path, tint } => {
            assert_eq!(path, "a.png");
            assert_eq!(*tint, Color { r: 255, g: 255, b: 255, a: 255 });
        }
        _ => panic!("image payload expected"),
    }
    match &scene.node(2).payload {
        NodePayload::Image { tint, .. } => assert_eq!(*tint, Color { r: 9, g: 8, b: 7, a: 6 }),
        _ => panic!("image payload expected"),
    }
}
