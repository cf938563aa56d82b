//! The authored layout tree, immutable once loaded.
use vstd::prelude::*;
use crate::geometry::{Anchor, Node, UVec2, Vec2};

verus! {

/// How text is aligned in its box.
#[derive(Clone, Copy, Debug, PartialEq, Eq, Structural)]
pub enum TextAlignment {
    Left,
    Center,
    Right,
}

impl TextAlignment {
    /// The anchor of a text's quad: left- and right-aligned text is attached
    /// at its content edge rather than at its center.
    pub fn anchor(&self) -> (r: Anchor)
        ensures
            r == text_anchor(*self),
    {
        match self {
            TextAlignment::Left => Anchor::CenterLeft,
            TextAlignment::Center => Anchor::Center,
            TextAlignment::Right => Anchor::CenterRight,
        }
    }
}

pub open spec fn text_anchor(a: TextAlignment) -> Anchor {
    match a {
        TextAlignment::Left => Anchor::CenterLeft,
        TextAlignment::Center => Anchor::Center,
        TextAlignment::Right => Anchor::CenterRight,
    }
}

/// A color with 8-bit red, green, blue and alpha channels.
#[derive(Clone, Copy, Debug, PartialEq, Eq, Structural)]
pub struct Color {
    pub r: u8,
    pub g: u8,
    pub b: u8,
    pub a: u8,
}

pub struct ImageNodeData {
    /// The image asset.
    pub path: String,
    /// A tint multiplied with the image; none for white.
    pub tint: Option<Color>,
}

pub struct TextNodeData {
    pub text: String,
    /// The font size in fixed-point pixels.
    pub size: i64,
    /// The font asset.
    pub font: String,
    pub color: Color,
    pub alignment: TextAlignment,
}

pub struct LayoutNodeData {
    /// The nested layout asset.
    pub path: String,
}

pub struct GroupNodeData {
    pub nodes: Vec<LayoutNode>,
}

/// What a node shows or holds.
pub enum LayoutNodeInner {
    Null,
    Image(ImageNodeData),
    Text(TextNodeData),
    Layout(LayoutNodeData),
    Group(GroupNodeData),
}

/// The kind of a node, without its payload.
#[derive(Clone, Copy, Debug, PartialEq, Eq, Structural)]
pub enum NodeKind {
    Null,
    Image,
    Text,
    Layout,
    Group,
}

pub open spec fn kind_of(inner: LayoutNodeInner) -> NodeKind {
    match inner {
        LayoutNodeInner::Null => NodeKind::Null,
        LayoutNodeInner::Image(_) => NodeKind::Image,
        LayoutNodeInner::Text(_) => NodeKind::Text,
        LayoutNodeInner::Layout(_) => NodeKind::Layout,
        LayoutNodeInner::Group(_) => NodeKind::Group,
    }
}

impl LayoutNodeInner {
    pub fn node_kind(&self) -> (r: NodeKind)
        ensures
            r == kind_of(*self),
    {
        match self {
            LayoutNodeInner::Null => NodeKind::Null,
            LayoutNodeInner::Image(_) => NodeKind::Image,
            LayoutNodeInner::Text(_) => NodeKind::Text,
            LayoutNodeInner::Layout(_) => NodeKind::Layout,
            LayoutNodeInner::Group(_) => NodeKind::Group,
        }
    }
}

/// One authored node.
pub struct LayoutNode {
    /// Unique among its siblings.
    pub id: String,
    pub position: Vec2,
    pub size: Vec2,
    /// Rotation in fixed-point degrees.
    pub rotation: i64,
    pub anchor: Anchor,
    pub inner: LayoutNodeInner,
    /// Handles of the attributes applied to the node once spawned.
    pub attributes: Vec<usize>,
}

/// A tree of nodes with its own coordinate system.
pub struct Layout {
    /// The resolution the nodes are authored in; the canvas size when absent.
    pub resolution: Option<UVec2>,
    pub canvas_size: UVec2,
    pub nodes: Vec<LayoutNode>,
    /// The names of the layout's animations.
    pub animations: Vec<String>,
}

impl Node {
    /// The declared geometry of an authored node.
    pub fn new_from_layout_node(node: &LayoutNode) -> (r: Node)
        ensures
            r.anchor == node.anchor,
            r.position == node.position,
            r.size == node.size,
            r.rotation == node.rotation,
    {
        Node { anchor: node.anchor, position: node.position, size: node.size, rotation: node.rotation }
    }
}

pub open spec fn resolution_of(l: Layout) -> UVec2 {
    match l.resolution {
        Some(r) => r,
        None => l.canvas_size,
    }
}

/// The index of the first node of `nodes` whose id is `id`.
pub open spec fn first_with_id(nodes: Seq<LayoutNode>, id: Seq<char>) -> Option<int>
    decreases nodes.len(),
{
    if nodes.len() == 0 {
        None
    } else {
        match first_with_id(nodes.drop_last(), id) {
            Some(i) => Some(i),
            None => if nodes.last().id@ == id { Some(nodes.len() - 1) } else { None },
        }
    }
}

/// The node that `path` names among `nodes`, descending through groups.
pub open spec fn node_at_path(nodes: Seq<LayoutNode>, path: Seq<Seq<char>>) -> Option<LayoutNode>
    decreases path.len(),
{
    if path.len() == 0 {
        None
    } else {
        match first_with_id(nodes, path[0]) {
            None => None,
            Some(i) => if path.len() == 1 {
                Some(nodes[i])
            } else {
                match nodes[i].inner {
                    LayoutNodeInner::Group(g) => node_at_path(g.nodes@, path.drop_first()),
                    _ => None,
                }
            },
        }
    }
}

proof fn lemma_first_with_id(nodes: Seq<LayoutNode>, id: Seq<char>, k: int)
    requires
        0 <= k <= nodes.len(),
        forall|j: int| 0 <= j < k ==> (#[trigger] nodes[j]).id@ != id,
    ensures
        k < nodes.len() && nodes[k].id@ == id ==> first_with_id(nodes, id) == Some(k),
        k == nodes.len() ==> first_with_id(nodes, id) is None,
    decreases nodes.len(),
{
    if nodes.len() > 0 {
        if k < nodes.len() && nodes[k].id@ == id {
            if k < nodes.len() - 1 {
                lemma_first_with_id(nodes.drop_last(), id, k);
            } else {
                lemma_first_with_id(nodes.drop_last(), id, k);
            }
        } else if k == nodes.len() {
            lemma_first_with_id(nodes.drop_last(), id, k - 1);
        }
    }
}

impl Layout {
    /// The resolution the nodes are authored in.
    pub fn get_resolution(&self) -> (r: UVec2)
        ensures
            r == resolution_of(*self),
    {
        match self.resolution {
            Some(r) => r,
            None => self.canvas_size,
        }
    }

    /// The node at `path`, a list of ids that descends through groups.
    pub fn child_by_id(&self, path: &Vec<String>) -> (r: Option<&LayoutNode>)
        requires
            path@.len() > 0,
        ensures
            match r {
                Some(n) => node_at_path(self.nodes@, path@.map_values(|s: String| s@)) == Some(*n),
                None => node_at_path(self.nodes@, path@.map_values(|s: String| s@)) is None,
            },
    {
        let ghost ids = path@.map_values(|s: String| s@);
        let mut nodes: &Vec<LayoutNode> = &self.nodes;
        let mut idx: usize = 0;
        assert(ids.subrange(0, ids.len() as int) =~= ids);
        while idx < path.len()
            invariant
                0 <= idx < path@.len(),
                ids == path@.map_values(|s: String| s@),
                node_at_path(self.nodes@, ids) == node_at_path(nodes@, ids.subrange(idx as int, ids.len() as int)),
            decreases path@.len() - idx,
        {
            let ghost rest = ids.subrange(idx as int, ids.len() as int);
            let id = &path[idx];
            let mut k: usize = 0;
            while k < nodes.len() && nodes[k].id != *id
                invariant
                    k <= nodes@.len(),
                    forall|j: int| 0 <= j < k ==> (#[trigger] nodes@[j]).id@ != id@,
                decreases nodes@.len() - k,
            {
                k = k + 1;
            }
            proof { lemma_first_with_id(nodes@, id@, k as int); }
            assert(rest[0] == id@);
            if k == nodes.len() {
                return None;
            }
            let node = &nodes[k];
            if idx + 1 == path.len() {
                return Some(node);
            }
            match &node.inner {
                LayoutNodeInner::Group(g) => {
                    assert(rest.drop_first() =~= ids.subrange(idx + 1, ids.len() as int));
                    nodes = &g.nodes;
                },
                _ => {
                    return None;
                },
            }
            idx = idx + 1;
        }
        None
    }
}

/// The assets an authored node refers to: its image, font or nested layout,
/// and those of a group's nodes, in document order.
pub open spec fn node_dependencies(n: LayoutNode) -> Seq<Seq<char>>
    decreases n,
{
    match n.inner {
        LayoutNodeInner::Null => Seq::empty(),
        LayoutNodeInner::Image(d) => seq![d.path@],
        LayoutNodeInner::Text(d) => seq![d.font@],
        LayoutNodeInner::Layout(d) => seq![d.path@],
        LayoutNodeInner::Group(g) => nodes_dependencies(g.nodes@),
    }
}

/// The assets that `ns` refer to, in document order.
pub open spec fn nodes_dependencies(ns: Seq<LayoutNode>) -> Seq<Seq<char>>
    decreases ns,
{
    if ns.len() == 0 {
        Seq::empty()
    } else {
        nodes_dependencies(ns.drop_last()) + node_dependencies(ns.last())
    }
}

pub open spec fn views(v: Seq<String>) -> Seq<Seq<char>> {
    v.map_values(|s: String| s@)
}

proof fn lemma_views_push(v: Seq<String>, s: String)
    ensures
        views(v.push(s)) == views(v).push(s@),
{
    assert(views(v.push(s)) =~= views(v).push(s@));
}

fn collect_node(n: &LayoutNode, out: &mut Vec<String>)
    ensures
        views(final(out)@) == views(old(out)@) + node_dependencies(*n),
    decreases n,
{
    let ghost before = out@;
    match &n.inner {
        LayoutNodeInner::Null => {
            assert(views(out@) =~= views(before) + Seq::<Seq<char>>::empty());
        },
        LayoutNodeInner::Image(d) => {
            out.push(d.path.clone());
            proof { lemma_views_push(before, d.path); }
            assert(views(out@) =~= views(before) + seq![d.path@]);
        },
        LayoutNodeInner::Text(d) => {
            out.push(d.font.clone());
            proof { lemma_views_push(before, d.font); }
            assert(views(out@) =~= views(before) + seq![d.font@]);
        },
        LayoutNodeInner::Layout(d) => {
            out.push(d.path.clone());
            proof { lemma_views_push(before, d.path); }
            assert(views(out@) =~= views(before) + seq![d.path@]);
        },
        LayoutNodeInner::Group(g) => {
            collect_nodes(&g.nodes, out);
        },
    }
}

fn collect_nodes(ns: &Vec<LayoutNode>, out: &mut Vec<String>)
    ensures
        views(final(out)@) == views(old(out)@) + nodes_dependencies(ns@),
    decreases ns,
{
    let ghost before = out@;
    let mut i: usize = 0;
    assert(ns@.subrange(0, 0) =~= Seq::<LayoutNode>::empty());
    assert(views(out@) =~= views(before) + nodes_dependencies(ns@.subrange(0, 0)));
    while i < ns.len()
        invariant
            i <= ns@.len(),
            views(out@) == views(before) + nodes_dependencies(ns@.subrange(0, i as int)),
        decreases ns@.len() - i,
    {
        let ghost mid = out@;
        collect_node(&ns[i], out);
        assert(ns@.subrange(0, i + 1).drop_last() =~= ns@.subrange(0, i as int));
        assert(ns@.subrange(0, i + 1).last() == ns@[i as int]);
        assert(views(out@) =~= views(before) + nodes_dependencies(ns@.subrange(0, i + 1)));
        i = i + 1;
    }
    assert(ns@.subrange(0, i as int) =~= ns@);
}

impl Layout {
    /// The paths of the assets that the layout's nodes refer to, in document order.
    pub fn dependencies(&self) -> (r: Vec<String>)
        ensures
            views(r@) == nodes_dependencies(self.nodes@),
    {
        let mut out: Vec<String> = Vec::new();
        collect_nodes(&self.nodes, &mut out);
        assert(views(Seq::<String>::empty()) =~= Seq::<Seq<char>>::empty());
        assert(Seq::<Seq<char>>::empty() + nodes_dependencies(self.nodes@) =~= nodes_dependencies(self.nodes@));
        out
    }
}

} // verus!
