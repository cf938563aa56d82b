//! The live scene graph: an arena of spawned nodes addressed by index.
//!
//! Spawning appends a layout's nodes depth-first, so the nodes of a subtree
//! occupy a contiguous range of indices, in document order, that starts with
//! the subtree's root.
use vstd::prelude::*;
use crate::geometry::{Anchor, LayoutInfo, Node, Ratio, Scale, UVec2, Vec2, position_at};
use crate::fixed::ONE;
use crate::layout::{
    Color, Layout, LayoutNode, LayoutNodeInner, NodeKind, TextAlignment, kind_of, resolution_of, text_anchor,
};
use crate::playback::LayoutAnimationPlaybackState;

verus! {

/// The paint order of a node.
#[derive(Clone, Copy, Debug, PartialEq, Eq, Structural)]
pub enum ZIndex {
    Calculated(usize),
    NeedsRecalculation,
}

/// The path of ids from a spawned layout's root down to a node.
pub struct LayoutNodeId {
    segments: Vec<String>,
}

/// The id of a spawned layout's root node.
pub open spec fn root_segment() -> Seq<char> {
    seq!['_', '_', 'r', 'o', 'o', 't']
}

impl LayoutNodeId {
    pub closed spec fn view(&self) -> Seq<Seq<char>> {
        self.segments@.map_values(|s: String| s@)
    }

    /// The id of a layout's root.
    pub fn root() -> (r: Self)
        ensures
            r@ == seq![root_segment()],
    {
        let mut segments: Vec<String> = Vec::new();
        let s = String::from_str("__root");
        proof { reveal_strlit("__root"); }
        assert(s@ =~= root_segment());
        segments.push(s);
        let r = LayoutNodeId { segments };
        assert(r@ =~= seq![root_segment()]);
        r
    }

    /// The node's own id: the last segment.
    pub fn name(&self) -> (r: &String)
        requires
            self@.len() > 0,
        ensures
            r@ == self@.last(),
    {
        &self.segments[self.segments.len() - 1]
    }

    /// The path one level down, to the child `id`.
    pub fn join(&self, id: &str) -> (r: Self)
        ensures
            r@ == self@.push(id@),
    {
        let mut segments: Vec<String> = Vec::new();
        let mut i: usize = 0;
        while i < self.segments.len()
            invariant
                i <= self.segments@.len(),
                segments@.map_values(|s: String| s@) == self@.subrange(0, i as int),
            decreases self.segments@.len() - i,
        {
            let ghost before = segments@;
            segments.push(self.segments[i].clone());
            assert(segments@.map_values(|s: String| s@) =~= before.map_values(|s: String| s@).push(self@[i as int]));
            assert(self@.subrange(0, i + 1) =~= self@.subrange(0, i as int).push(self@[i as int]));
            i = i + 1;
        }
        let ghost before = segments@;
        segments.push(id.to_owned());
        assert(segments@.map_values(|s: String| s@) =~= before.map_values(|s: String| s@).push(id@));
        assert(self@.subrange(0, i as int) =~= self@);
        LayoutNodeId { segments }
    }

    /// The path below the layout root: without a leading root segment.
    pub fn qualified(&self) -> (r: Vec<String>)
        ensures
            self@.len() > 0 && self@[0] == root_segment() ==> r@.map_values(|s: String| s@) == self@.drop_first(),
            !(self@.len() > 0 && self@[0] == root_segment()) ==> r@.map_values(|s: String| s@) == self@,
    {
        let root = String::from_str("__root");
        proof { reveal_strlit("__root"); }
        assert(root@ =~= root_segment());
        let start: usize = if self.segments.len() > 0 && self.segments[0] == root { 1 } else { 0 };
        let mut out: Vec<String> = Vec::new();
        let mut i: usize = start;
        while i < self.segments.len()
            invariant
                start <= i <= self.segments@.len(),
                start <= self.segments@.len(),
                out@.map_values(|s: String| s@) == self@.subrange(start as int, i as int),
            decreases self.segments@.len() - i,
        {
            let ghost before = out@;
            out.push(self.segments[i].clone());
            assert(out@.map_values(|s: String| s@) =~= before.map_values(|s: String| s@).push(self@[i as int]));
            assert(self@.subrange(start as int, i + 1) =~= self@.subrange(start as int, i as int).push(self@[i as int]));
            i = i + 1;
        }
        assert(self@.subrange(start as int, self@.len() as int) =~= if start == 1 { self@.drop_first() } else { self@ });
        out
    }
}

/// The live visual payload of a node.
pub enum NodePayload {
    Empty,
    Image { path: String, tint: Color },
    Text { text: String, size: i64, font: String, color: Color, alignment: TextAlignment },
}

/// One spawned node.
pub struct LiveNode {
    /// The id of the authored node.
    pub id: String,
    /// The ids from the layout root down to this node.
    pub node_id: LayoutNodeId,
    pub kind: NodeKind,
    /// The declared geometry: the input of transform propagation.
    pub node: Node,
    /// The point of the visual quad that is placed at the node's position.
    pub visual_anchor: Anchor,
    pub parent: Option<usize>,
    pub children: Vec<usize>,
    /// The end (exclusive) of the index range of this node's subtree.
    pub subtree_end: usize,
    pub z_index: ZIndex,
    /// The coordinate frame that a layout or group node hosts.
    pub layout_info: Option<LayoutInfo>,
    /// Handles of the attributes that were applied to the node.
    pub attributes: Vec<usize>,
    pub payload: NodePayload,
    /// The animations of a layout node.
    pub playback: Option<LayoutAnimationPlaybackState>,
    /// The asset path of a nested layout node.
    pub layout_path: Option<String>,
}

/// A layout asset that has been loaded, with the path it is known by.
pub struct LayoutAsset {
    pub path: String,
    pub layout: Layout,
}

/// Why a layout could not be spawned.
#[derive(Clone, Copy, Debug, PartialEq, Eq, Structural)]
pub enum SpawnLayoutError {
    /// A nested layout is not loaded yet.
    NotLoaded,
    /// Layouts nest deeper than there are layouts, which only a layout that
    /// contains itself can cause.
    Cyclic,
}

/// Why navigating from a node failed.
#[derive(Debug, PartialEq, Eq)]
pub enum NodeEntityError {
    /// The node has no parent.
    NoParent(usize),
    /// The walk along a path reached a node without children.
    NoChildren(usize),
    /// The walk along a path reached a node without a child of this name.
    NoChildWithName(usize, String),
}

/// The root of the tree that node `i` belongs to.
pub open spec fn root_of(nodes: Seq<LiveNode>, i: int) -> int
    decreases i,
{
    if 0 <= i < nodes.len() {
        match nodes[i].parent {
            Some(p) => if p < i { root_of(nodes, p as int) } else { i },
            None => i,
        }
    } else {
        i
    }
}

/// Node `i` points only at parents before it and at children after it, and
/// its subtree ends within the first `n` nodes.
pub open spec fn node_ok(nodes: Seq<LiveNode>, i: int, n: int) -> bool {
    &&& i < nodes[i].subtree_end <= n
    &&& (nodes[i].parent matches Some(p) ==> p < i)
    &&& forall|k: int| 0 <= k < nodes[i].children@.len() ==>
        i < #[trigger] nodes[i].children@[k] < n
    &&& (nodes[i].playback matches Some(p) ==> p.well_formed())
    &&& rooted(nodes, i, nodes[i].subtree_end as int)
    &&& children_tile(nodes, i)
}

/// The subtrees of node `i`'s children tile its own subtree in child order:
/// the first child follows `i`, each next child starts where the previous
/// child's subtree ends, and the last one ends with `i`'s subtree. Index
/// order within a subtree is therefore the depth-first order of the
/// children lists.
pub open spec fn children_tile(nodes: Seq<LiveNode>, i: int) -> bool {
    let ch = nodes[i].children@;
    &&& (ch.len() == 0 ==> nodes[i].subtree_end == i + 1)
    &&& (ch.len() > 0 ==> ch[0] == i + 1 && nodes[ch.last() as int].subtree_end == nodes[i].subtree_end)
    &&& forall|k: int| 0 <= k < ch.len() - 1 ==> #[trigger] ch[k + 1] == nodes[ch[k] as int].subtree_end
}

/// The subtrees of `kids` follow each other from `lo` to the end of `nodes`.
pub open spec fn kids_tile(nodes: Seq<LiveNode>, kids: Seq<usize>, lo: int) -> bool {
    &&& (kids.len() == 0 ==> nodes.len() == lo)
    &&& (kids.len() > 0 ==> kids[0] == lo && nodes[kids.last() as int].subtree_end == nodes.len())
    &&& forall|k: int| 0 <= k < kids.len() - 1 ==> #[trigger] kids[k + 1] == nodes[kids[k] as int].subtree_end
}

/// Every node from `lo` on is a child of `parent` or has its parent between
/// `lo` and itself.
pub open spec fn parents_within(nodes: Seq<LiveNode>, lo: int, parent: int) -> bool {
    forall|j: int| lo <= j < nodes.len() ==> ((#[trigger] nodes[j]).parent matches Some(p) && (p == parent
        || lo <= p < j))
}

/// Every node after `root` and before `end` has its parent in that range:
/// the range is `root`'s subtree.
pub open spec fn rooted(nodes: Seq<LiveNode>, root: int, end: int) -> bool {
    forall|j: int| root < j < end ==> ((#[trigger] nodes[j]).parent matches Some(p) && root <= p < j)
}

pub open spec fn scene_ok(nodes: Seq<LiveNode>) -> bool {
    forall|i: int| 0 <= i < nodes.len() ==> #[trigger] node_ok(nodes, i, nodes.len() as int)
}

/// The nodes from `start` on are well formed, and those before are those of `before`.
pub open spec fn appended(before: Seq<LiveNode>, after: Seq<LiveNode>, start: int) -> bool {
    &&& start <= after.len()
    &&& before.len() >= start
    &&& forall|i: int| 0 <= i < start ==> #[trigger] after[i] == before[i]
    &&& forall|i: int| start <= i < after.len() ==> #[trigger] node_ok(after, i, after.len() as int)
}

/// The first loaded layout known by `path`.
pub open spec fn first_asset(assets: Seq<LayoutAsset>, path: Seq<char>) -> Option<int>
    decreases assets.len(),
{
    if assets.len() == 0 {
        None
    } else {
        match first_asset(assets.drop_last(), path) {
            Some(a) => Some(a),
            None => if assets.last().path@ == path { Some(assets.len() - 1) } else { None },
        }
    }
}

/// A whole-pixel size in fixed-point pixels.
pub open spec fn pixels_of(v: UVec2) -> Vec2 {
    Vec2 { x: (v.x * ONE) as i64, y: (v.y * ONE) as i64 }
}

/// The live node carries what it takes from the authored node `n`.
pub open spec fn live_matches(live: LiveNode, n: LayoutNode) -> bool {
    &&& live.id@ == n.id@
    &&& live.kind == kind_of(n.inner)
    &&& live.node == (Node { anchor: n.anchor, position: n.position, size: n.size, rotation: n.rotation })
    &&& live.visual_anchor == match n.inner {
        LayoutNodeInner::Text(t) => text_anchor(t.alignment),
        _ => Anchor::Center,
    }
    &&& live.attributes@ == n.attributes@
    &&& live.z_index == ZIndex::NeedsRecalculation
    &&& payload_matches(live.payload, n.inner)
}

/// The live payload shows what the authored node shows; an image without a
/// tint is tinted white.
pub open spec fn payload_matches(p: NodePayload, inner: LayoutNodeInner) -> bool {
    match (p, inner) {
        (NodePayload::Image { path, tint }, LayoutNodeInner::Image(d)) => path@ == d.path@ && tint == match d.tint {
            Some(c) => c,
            None => Color { r: 255, g: 255, b: 255, a: 255 },
        },
        (NodePayload::Text { text, size, font, color, alignment }, LayoutNodeInner::Text(d)) =>
            text@ == d.text@ && size == d.size && font@ == d.font@ && color == d.color && alignment == d.alignment,
        (NodePayload::Empty, LayoutNodeInner::Null) => true,
        (NodePayload::Empty, LayoutNodeInner::Layout(_)) => true,
        (NodePayload::Empty, LayoutNodeInner::Group(_)) => true,
        _ => false,
    }
}

/// Node `i` of `nodes` is a spawn of the authored node `n` placed in
/// `parent_layout`: its children are, in order, spawns of a group's nodes or
/// of a nested layout's nodes, in the coordinate frame that the node hosts.
pub open spec fn spawned(
    nodes: Seq<LiveNode>,
    i: int,
    n: LayoutNode,
    parent_layout: Layout,
    assets: Seq<LayoutAsset>,
    fuel: nat,
    parent_id: Seq<Seq<char>>,
) -> bool
    decreases fuel, n,
{
    &&& 0 <= i < nodes.len()
    &&& live_matches(nodes[i], n)
    &&& nodes[i].node_id@ == parent_id.push(n.id@)
    &&& match n.inner {
        LayoutNodeInner::Group(g) => {
            &&& nodes[i].layout_info == Some(LayoutInfo {
                parent_resolution: UVec2 { x: 1, y: 1 },
                resolution: UVec2 { x: 1, y: 1 },
                canvas_size: n.size,
            })
            &&& nodes[i].children@.len() == g.nodes@.len()
            &&& forall|k: int| 0 <= k < g.nodes@.len() ==> spawned(
                nodes,
                #[trigger] nodes[i].children@[k] as int,
                g.nodes@[k],
                parent_layout,
                assets,
                fuel,
                nodes[i].node_id@,
            )
        },
        LayoutNodeInner::Layout(d) => {
            &&& fuel > 0
            &&& first_asset(assets, d.path@) matches Some(a)
            &&& {
                let sub = assets[first_asset(assets, d.path@)->0].layout;
                &&& nodes[i].layout_info == Some(LayoutInfo {
                    parent_resolution: resolution_of(parent_layout),
                    resolution: resolution_of(sub),
                    canvas_size: pixels_of(sub.canvas_size),
                })
                &&& nodes[i].children@.len() == sub.nodes@.len()
                &&& forall|k: int| 0 <= k < sub.nodes@.len() ==> spawned(
                    nodes,
                    #[trigger] nodes[i].children@[k] as int,
                    sub.nodes@[k],
                    sub,
                    assets,
                    (fuel - 1) as nat,
                    nodes[i].node_id@,
                )
            }
        },
        _ => nodes[i].layout_info is None && nodes[i].children@.len() == 0,
    }
}

/// What `spawned` says of a node only depends on the nodes from `lo` on, when
/// those are well formed.
proof fn lemma_spawned_stable(
    a: Seq<LiveNode>,
    b: Seq<LiveNode>,
    lo: int,
    i: int,
    n: LayoutNode,
    parent_layout: Layout,
    assets: Seq<LayoutAsset>,
    fuel: nat,
    parent_id: Seq<Seq<char>>,
)
    requires
        spawned(a, i, n, parent_layout, assets, fuel, parent_id),
        lo <= i,
        a.len() <= b.len(),
        forall|j: int| lo <= j < a.len() ==> #[trigger] b[j] == a[j],
        forall|j: int| lo <= j < a.len() ==> #[trigger] node_ok(a, j, a.len() as int),
    ensures
        spawned(b, i, n, parent_layout, assets, fuel, parent_id),
    decreases fuel, n,
{
    assert(node_ok(a, i, a.len() as int));
    assert(b[i] == a[i]);
    match n.inner {
        LayoutNodeInner::Group(g) => {
            assert forall|k: int| 0 <= k < g.nodes@.len() implies spawned(
                b,
                #[trigger] b[i].children@[k] as int,
                g.nodes@[k],
                parent_layout,
                assets,
                fuel,
                b[i].node_id@,
            ) by {
                lemma_spawned_stable(a, b, lo, a[i].children@[k] as int, g.nodes@[k], parent_layout, assets, fuel, a[i].node_id@);
            };
        },
        LayoutNodeInner::Layout(d) => {
            let sub = assets[first_asset(assets, d.path@)->0].layout;
            assert forall|k: int| 0 <= k < sub.nodes@.len() implies spawned(
                b,
                #[trigger] b[i].children@[k] as int,
                sub.nodes@[k],
                sub,
                assets,
                (fuel - 1) as nat,
                b[i].node_id@,
            ) by {
                lemma_spawned_stable(a, b, lo, a[i].children@[k] as int, sub.nodes@[k], sub, assets, (fuel - 1) as nat, a[i].node_id@);
            };
        },
        _ => {},
    }
}

/// How many live nodes spawning `n` creates, counting a nested layout that
/// cannot be spawned as its node alone.
pub open spec fn node_count(n: LayoutNode, assets: Seq<LayoutAsset>, fuel: nat) -> nat
    decreases fuel, n,
{
    match n.inner {
        LayoutNodeInner::Group(g) => 1 + nodes_count(g.nodes@, assets, fuel),
        LayoutNodeInner::Layout(d) => match first_asset(assets, d.path@) {
            Some(a) => if fuel > 0 {
                1 + nodes_count(assets[a].layout.nodes@, assets, (fuel - 1) as nat)
            } else {
                1
            },
            None => 1,
        },
        _ => 1,
    }
}

pub open spec fn nodes_count(ns: Seq<LayoutNode>, assets: Seq<LayoutAsset>, fuel: nat) -> nat
    decreases fuel, ns,
{
    if ns.len() == 0 {
        0
    } else {
        nodes_count(ns.drop_last(), assets, fuel) + node_count(ns.last(), assets, fuel)
    }
}

/// How spawning `n` ends: the first failure in document order, if any. A
/// nested layout that is not loaded fails with `NotLoaded`; one nested
/// deeper than `fuel` allows fails with `Cyclic`.
pub open spec fn node_outcome(n: LayoutNode, assets: Seq<LayoutAsset>, fuel: nat) -> Option<SpawnLayoutError>
    decreases fuel, n,
{
    match n.inner {
        LayoutNodeInner::Group(g) => nodes_outcome(g.nodes@, assets, fuel),
        LayoutNodeInner::Layout(d) => match first_asset(assets, d.path@) {
            None => Some(SpawnLayoutError::NotLoaded),
            Some(a) => if fuel == 0 {
                Some(SpawnLayoutError::Cyclic)
            } else {
                nodes_outcome(assets[a].layout.nodes@, assets, (fuel - 1) as nat)
            },
        },
        _ => None,
    }
}

pub open spec fn nodes_outcome(ns: Seq<LayoutNode>, assets: Seq<LayoutAsset>, fuel: nat) -> Option<SpawnLayoutError>
    decreases fuel, ns,
{
    if ns.len() == 0 {
        None
    } else {
        match nodes_outcome(ns.drop_last(), assets, fuel) {
            Some(e) => Some(e),
            None => node_outcome(ns.last(), assets, fuel),
        }
    }
}

proof fn lemma_outcome_prefix(ns: Seq<LayoutNode>, assets: Seq<LayoutAsset>, fuel: nat, j: int)
    requires
        0 <= j <= ns.len(),
        nodes_outcome(ns.subrange(0, j), assets, fuel) is Some,
    ensures
        nodes_outcome(ns, assets, fuel) == nodes_outcome(ns.subrange(0, j), assets, fuel),
    decreases ns.len(),
{
    if j == ns.len() {
        assert(ns.subrange(0, j) =~= ns);
    } else {
        assert(ns.drop_last().subrange(0, j) =~= ns.subrange(0, j));
        lemma_outcome_prefix(ns.drop_last(), assets, fuel, j);
    }
}

proof fn lemma_count_prefix(ns: Seq<LayoutNode>, assets: Seq<LayoutAsset>, fuel: nat, j: int)
    requires
        0 <= j <= ns.len(),
    ensures
        nodes_count(ns.subrange(0, j), assets, fuel) <= nodes_count(ns, assets, fuel),
    decreases ns.len(),
{
    if j == ns.len() {
        assert(ns.subrange(0, j) =~= ns);
    } else {
        assert(ns.drop_last().subrange(0, j) =~= ns.subrange(0, j));
        lemma_count_prefix(ns.drop_last(), assets, fuel, j);
    }
}

proof fn lemma_prefix_step(ns: Seq<LayoutNode>, assets: Seq<LayoutAsset>, fuel: nat, k: int)
    requires
        0 <= k < ns.len(),
    ensures
        nodes_count(ns.subrange(0, k + 1), assets, fuel)
            == nodes_count(ns.subrange(0, k), assets, fuel) + node_count(ns[k], assets, fuel),
        nodes_outcome(ns.subrange(0, k + 1), assets, fuel) == match nodes_outcome(ns.subrange(0, k), assets, fuel) {
            Some(e) => Some(e),
            None => node_outcome(ns[k], assets, fuel),
        },
{
    assert(ns.subrange(0, k + 1).drop_last() =~= ns.subrange(0, k));
    assert(ns.subrange(0, k + 1).last() == ns[k]);
}

/// Index `j` occurs in `order` at a position from `from` on.
pub open spec fn listed(order: Seq<usize>, from: int, j: int) -> bool {
    exists|q: int| from <= q < order.len() && order[q] == j
}

/// Index `j` occurs in `order` before position `p`.
pub open spec fn listed_before(order: Seq<usize>, p: int, j: int) -> bool {
    exists|q: int| 0 <= q < p && order[q] == j
}

/// In `order`, the children of node `i` stand together in child order, after
/// every other node of `i`'s subtree.
pub open spec fn children_block(order: Seq<usize>, nodes: Seq<LiveNode>, i: int) -> bool {
    exists|p: int| #[trigger] block_at(order, nodes[i].children@, nodes[i].subtree_end as int, i, p)
}

/// `kids` stand at position `p` of `order`, after every other node between
/// `i` and `end`.
pub open spec fn block_at(order: Seq<usize>, kids: Seq<usize>, end: int, i: int, p: int) -> bool {
    &&& 0 <= p
    &&& p + kids.len() <= order.len()
    &&& order.subrange(p, p + kids.len()) == kids
    &&& forall|j: int| i < j < end && !kids.contains(j as usize) ==> #[trigger] listed_before(order, p, j)
}

proof fn lemma_block_extended(a: Seq<usize>, b: Seq<usize>, kids: Seq<usize>, end: int, i: int, p: int)
    requires
        block_at(a, kids, end, i, p),
        a.len() <= b.len(),
        b.subrange(0, a.len() as int) == a,
    ensures
        block_at(b, kids, end, i, p),
{
    assert(b.subrange(p, p + kids.len()) =~= a.subrange(p, p + kids.len())) by {
        assert forall|k: int| 0 <= k < kids.len() implies #[trigger] b[p + k] == a[p + k] by {
            assert(b.subrange(0, a.len() as int)[p + k] == b[p + k]);
        };
    };
    assert forall|j: int| i < j < end && !kids.contains(j as usize) implies #[trigger] listed_before(b, p, j) by {
        assert(listed_before(a, p, j));
        let q = choose|q: int| 0 <= q < p && a[q] == j;
        assert(b.subrange(0, a.len() as int)[q] == b[q]);
    };
}

proof fn lemma_children_block_extended(a: Seq<usize>, b: Seq<usize>, na: Seq<LiveNode>, nb: Seq<LiveNode>, i: int)
    requires
        children_block(a, na, i),
        a.len() <= b.len(),
        b.subrange(0, a.len() as int) == a,
        0 <= i < na.len(),
        i < nb.len(),
        nb[i] == na[i],
    ensures
        children_block(b, nb, i),
{
    let p = choose|p: int| #[trigger] block_at(a, na[i].children@, na[i].subtree_end as int, i, p);
    lemma_block_extended(a, b, na[i].children@, na[i].subtree_end as int, i, p);
    assert(block_at(b, nb[i].children@, nb[i].subtree_end as int, i, p));
}

proof fn lemma_listed_extended(before: Seq<usize>, after: Seq<usize>, from: int, j: int, lo: int, hi: int)
    requires
        0 <= from,
        listed(before, from, j),
        order_extended(before, after, lo, hi),
    ensures
        listed(after, from, j),
{
    let q = choose|q: int| from <= q < before.len() && before[q] == j;
    assert(after.subrange(0, before.len() as int)[q] == after[q]);
}

/// `after` is `before` followed by indices in `lo..hi`.
pub open spec fn order_extended(before: Seq<usize>, after: Seq<usize>, lo: int, hi: int) -> bool {
    &&& after.len() >= before.len()
    &&& after.subrange(0, before.len() as int) == before
    &&& forall|k: int| before.len() <= k < after.len() ==> lo <= #[trigger] after[k] < hi
}

proof fn lemma_order_same(s: Seq<usize>, lo: int, hi: int)
    ensures
        order_extended(s, s, lo, hi),
{
    assert(s.subrange(0, s.len() as int) =~= s);
}

proof fn lemma_order_push(before: Seq<usize>, after: Seq<usize>, x: usize, lo: int, hi: int)
    requires
        order_extended(before, after, lo, hi),
        lo <= x < hi,
    ensures
        order_extended(before, after.push(x), lo, hi),
{
    assert(after.push(x).subrange(0, before.len() as int) =~= after.subrange(0, before.len() as int));
}

fn copy_indices(v: &Vec<usize>) -> (r: Vec<usize>)
    ensures
        r@ == v@,
{
    let mut r: Vec<usize> = Vec::new();
    let mut i: usize = 0;
    while i < v.len()
        invariant
            i <= v@.len(),
            r@ == v@.subrange(0, i as int),
        decreases v@.len() - i,
    {
        r.push(v[i]);
        i = i + 1;
    }
    assert(r@ =~= v@);
    r
}

fn copy_names(v: &Vec<String>) -> (r: Vec<String>)
    ensures
        r@ == v@,
{
    let mut r: Vec<String> = Vec::new();
    let mut i: usize = 0;
    while i < v.len()
        invariant
            i <= v@.len(),
            r@ == v@.subrange(0, i as int),
        decreases v@.len() - i,
    {
        r.push(v[i].clone());
        i = i + 1;
    }
    assert(r@ =~= v@);
    r
}

proof fn lemma_first_asset(assets: Seq<LayoutAsset>, path: Seq<char>, k: int)
    requires
        0 <= k <= assets.len(),
        forall|j: int| 0 <= j < k ==> (#[trigger] assets[j]).path@ != path,
    ensures
        k < assets.len() && assets[k].path@ == path ==> first_asset(assets, path) == Some(k),
        k == assets.len() ==> first_asset(assets, path) is None,
    decreases assets.len(),
{
    if assets.len() > 0 {
        if k < assets.len() && assets[k].path@ == path {
            lemma_first_asset(assets.drop_last(), path, k);
        } else if k == assets.len() {
            lemma_first_asset(assets.drop_last(), path, k - 1);
        }
    }
}

fn find_asset(assets: &Vec<LayoutAsset>, path: &String) -> (r: Option<usize>)
    ensures
        r matches Some(i) ==> first_asset(assets@, path@) == Some(i as int),
        r is None ==> first_asset(assets@, path@) is None,
        match r {
            Some(i) => i < assets@.len() && assets@[i as int].path@ == path@,
            None => forall|i: int| 0 <= i < assets@.len() ==> (#[trigger] assets@[i]).path@ != path@,
        },
{
    let mut i: usize = 0;
    while i < assets.len()
        invariant
            i <= assets@.len(),
            forall|j: int| 0 <= j < i ==> (#[trigger] assets@[j]).path@ != path@,
        decreases assets@.len() - i,
    {
        if assets[i].path == *path {
            proof { lemma_first_asset(assets@, path@, i as int); }
            return Some(i);
        }
        i = i + 1;
    }
    proof { lemma_first_asset(assets@, path@, i as int); }
    None
}

/// Converts whole pixels to fixed-point pixels.
fn pixels(v: UVec2) -> (r: Vec2)
    ensures
        r.x == v.x * ONE,
        r.y == v.y * ONE,
        r == pixels_of(v),
        r.in_range(),
{
    assert(v.x * 65536 <= 0xffff_ffff * 65536) by (nonlinear_arith) requires v.x <= 0xffff_ffff;
    assert(v.y * 65536 <= 0xffff_ffff * 65536) by (nonlinear_arith) requires v.y <= 0xffff_ffff;
    Vec2 { x: (v.x as i64) * ONE, y: (v.y as i64) * ONE }
}

fn placeholder(parent: Option<usize>, index: usize) -> (r: LiveNode)
    requires
        index < usize::MAX,
    ensures
        r.parent == parent,
        r.children@.len() == 0,
        r.subtree_end == index + 1,
        r.playback is None,
{
    LiveNode {
        id: String::new(),
        node_id: LayoutNodeId { segments: Vec::new() },
        kind: NodeKind::Null,
        node: Node {
            anchor: Anchor::TopLeft,
            position: Vec2 { x: 0, y: 0 },
            size: Vec2 { x: 0, y: 0 },
            rotation: 0,
        },
        visual_anchor: Anchor::Center,
        parent,
        children: Vec::new(),
        subtree_end: index + 1,
        z_index: ZIndex::NeedsRecalculation,
        layout_info: None,
        attributes: Vec::new(),
        payload: NodePayload::Empty,
        playback: None,
        layout_path: None,
    }
}

/// Spawns the authored `list` as children of `parent`, then records them in
/// `order`, the order in which attributes are applied.
fn spawn_children(
    nodes: &mut Vec<LiveNode>,
    assets: &Vec<LayoutAsset>,
    parent_layout: &Layout,
    parent: usize,
    parent_id: &LayoutNodeId,
    list: &Vec<LayoutNode>,
    fuel: usize,
    order: &mut Vec<usize>,
) -> (r: Result<Vec<usize>, SpawnLayoutError>)
    requires
        parent < old(nodes)@.len(),
        old(nodes)@.len() + nodes_count(list@, assets@, fuel as nat) <= usize::MAX,
    ensures
        appended(old(nodes)@, final(nodes)@, old(nodes)@.len() as int),
        r is Ok <==> nodes_outcome(list@, assets@, fuel as nat) is None,
        r matches Err(e) ==> nodes_outcome(list@, assets@, fuel as nat) == Some(e),
        r is Ok ==> final(nodes)@.len() == old(nodes)@.len() + nodes_count(list@, assets@, fuel as nat),
        r is Ok ==> parents_within(final(nodes)@, old(nodes)@.len() as int, parent as int),
        r matches Ok(kids) ==> kids_tile(final(nodes)@, kids@, old(nodes)@.len() as int),
        r is Ok ==> forall|m: int| old(nodes)@.len() <= m < final(nodes)@.len() ==> #[trigger] children_block(
            final(order)@,
            final(nodes)@,
            m,
        ),
        r matches Ok(kids) ==> exists|p: int| #[trigger] block_at(
            final(order)@,
            kids@,
            final(nodes)@.len() as int,
            old(nodes)@.len() - 1,
            p,
        ),
        r is Ok ==> final(order)@.len() == old(order)@.len() + final(nodes)@.len() - old(nodes)@.len(),
        r is Ok ==> forall|j: int| old(nodes)@.len() <= j < final(nodes)@.len() ==> #[trigger] listed(
            final(order)@,
            old(order)@.len() as int,
            j,
        ),
        r matches Ok(kids) ==> forall|k: int| 0 <= k < kids@.len() ==> spawned(
            final(nodes)@,
            #[trigger] kids@[k] as int,
            list@[k],
            *parent_layout,
            assets@,
            fuel as nat,
            parent_id@,
        ),
        r matches Ok(kids) ==> kids@.len() == list@.len() && forall|k: int|
            0 <= k < kids@.len() ==> parent < #[trigger] kids@[k] < final(nodes)@.len()
                && final(nodes)@[kids@[k] as int].parent == Some(parent)
                && final(nodes)@[kids@[k] as int].node_id@ == parent_id@.push(list@[k].id@),
        order_extended(old(order)@, final(order)@, old(nodes)@.len() as int, final(nodes)@.len() as int),
    decreases fuel, list, 0nat,
{
    let ghost start = nodes@;
    proof { lemma_order_same(order@, start.len() as int, start.len() as int); }
    let mut kids: Vec<usize> = Vec::new();
    let mut k: usize = 0;
    while k < list.len()
        invariant
            start == old(nodes)@,
            parent < start.len(),
            k <= list@.len(),
            start.len() + nodes_count(list@, assets@, fuel as nat) <= usize::MAX,
            kids_tile(nodes@, kids@, start.len() as int),
            nodes@.len() == start.len() + nodes_count(list@.subrange(0, k as int), assets@, fuel as nat),
            nodes_outcome(list@.subrange(0, k as int), assets@, fuel as nat) is None,
            parents_within(nodes@, start.len() as int, parent as int),
            order@.len() + kids@.len() == old(order)@.len() + nodes@.len() - start.len(),
            forall|m: int| start.len() <= m < nodes@.len() ==> #[trigger] children_block(order@, nodes@, m),
            forall|j: int| start.len() <= j < nodes@.len() ==> (#[trigger] listed(order@, old(order)@.len() as int, j)
                || kids@.contains(j as usize)),
            kids@.len() == k,
            appended(start, nodes@, start.len() as int),
            forall|j: int| 0 <= j < kids@.len() ==> parent < #[trigger] kids@[j] < nodes@.len()
                && start.len() <= kids@[j] && nodes@[kids@[j] as int].parent == Some(parent)
                && nodes@[kids@[j] as int].node_id@ == parent_id@.push(list@[j].id@),
            order_extended(old(order)@, order@, start.len() as int, nodes@.len() as int),
            forall|j: int| 0 <= j < kids@.len() ==> spawned(
                nodes@,
                #[trigger] kids@[j] as int,
                list@[j],
                *parent_layout,
                assets@,
                fuel as nat,
                parent_id@,
            ),
        decreases list@.len() - k,
    {
        let ghost mid = nodes@;
        let ghost mid_order = order@;
        assert(mid.len() >= start.len());
        proof {
            lemma_prefix_step(list@, assets@, fuel as nat, k as int);
            lemma_count_prefix(list@, assets@, fuel as nat, k + 1);
        }
        let res = spawn_node(nodes, assets, parent_layout, parent, parent_id, &list[k], fuel, order);
        proof {
            assert forall|j: int| 0 <= j < kids@.len() implies parent < #[trigger] kids@[j] < nodes@.len()
                && start.len() <= kids@[j] && nodes@[kids@[j] as int].parent == Some(parent)
                && nodes@[kids@[j] as int].node_id@ == parent_id@.push(list@[j].id@) by {
                assert(nodes@[kids@[j] as int] == mid[kids@[j] as int]);
            };
            assert forall|i: int| start.len() <= i < nodes@.len() implies
                #[trigger] node_ok(nodes@, i, nodes@.len() as int) by {
                if i < mid.len() {
                    assert(nodes@[i] == mid[i]);
                    assert(node_ok(mid, i, mid.len() as int));
                }
            };
            assert forall|i: int| 0 <= i < start.len() implies #[trigger] nodes@[i] == start[i] by {
                assert(nodes@[i] == mid[i]);
            };
            assert(order@.subrange(0, old(order)@.len() as int) =~= old(order)@) by {
                assert(order@.subrange(0, mid_order.len() as int) == mid_order);
                assert(mid_order.subrange(0, old(order)@.len() as int) == old(order)@);
                assert forall|k: int| 0 <= k < old(order)@.len() implies order@[k] == old(order)@[k] by {
                    assert(order@.subrange(0, mid_order.len() as int)[k] == order@[k]);
                    assert(mid_order.subrange(0, old(order)@.len() as int)[k] == mid_order[k]);
                };
            };
            assert forall|k: int| old(order)@.len() <= k < order@.len() implies
                start.len() <= #[trigger] order@[k] < nodes@.len() by {
                if k < mid_order.len() {
                    assert(order@.subrange(0, mid_order.len() as int)[k] == order@[k]);
                }
            };
        }
        let child = match res {
            Ok(c) => c,
            Err(e) => {
                proof { lemma_outcome_prefix(list@, assets@, fuel as nat, k + 1); }
                return Err(e);
            },
        };
        proof {
            assert forall|m: int| start.len() <= m < nodes@.len() implies #[trigger] children_block(order@, nodes@, m) by {
                if m < mid.len() {
                    assert(nodes@[m] == mid[m]);
                    lemma_children_block_extended(mid_order, order@, mid, nodes@, m);
                }
            };
        }
        proof {
            assert forall|j: int| start.len() <= j < mid.len() implies (#[trigger] listed(order@, old(order)@.len() as int, j)
                || kids@.contains(j as usize)) by {
                if listed(mid_order, old(order)@.len() as int, j) {
                    lemma_listed_extended(mid_order, order@, old(order)@.len() as int, j, mid.len() as int, nodes@.len() as int);
                }
            };
        }
        proof {
            assert forall|j: int| 0 <= j < kids@.len() implies spawned(
                nodes@,
                #[trigger] kids@[j] as int,
                list@[j],
                *parent_layout,
                assets@,
                fuel as nat,
                parent_id@,
            ) by {
                lemma_spawned_stable(mid, nodes@, start.len() as int, kids@[j] as int, list@[j], *parent_layout, assets@, fuel as nat, parent_id@);
            };
        }
        assert forall|j: int| mid.len() < j < nodes@.len() implies #[trigger] listed(order@, old(order)@.len() as int, j) by {
            assert(listed(order@, mid_order.len() as int, j));
            let q = choose|q: int| mid_order.len() <= q < order@.len() && order@[q] == j;
            assert(old(order)@.len() <= q < order@.len() && order@[q] == j);
        };
        let ghost kids_before = kids@;
        kids.push(child);
        assert(kids@ == kids_before.push(child));
        assert forall|j: int| start.len() <= j < nodes@.len() implies (#[trigger] listed(order@, old(order)@.len() as int, j)
            || kids@.contains(j as usize)) by {
            if j == mid.len() {
                assert(kids@[kids@.len() - 1] == j as usize);
            } else if j < mid.len() {
                if kids_before.contains(j as usize) {
                    let w = choose|w: int| 0 <= w < kids_before.len() && kids_before[w] == j as usize;
                    assert(kids@[w] == j as usize);
                }
            }
        };
        assert forall|j: int| 0 <= j < kids@.len() implies spawned(
            nodes@,
            #[trigger] kids@[j] as int,
            list@[j],
            *parent_layout,
            assets@,
            fuel as nat,
            parent_id@,
        ) by {
            if j < kids_before.len() {
                assert(kids@[j] == kids_before[j]);
            } else {
                assert(kids@[j] == child);
                assert(j == k);
            }
        };
        k = k + 1;
    }
    assert(list@.subrange(0, k as int) =~= list@);
    assert(kids@.subrange(0, kids@.len() as int) =~= kids@);
    let ghost p0 = order@.len() as int;
    assert forall|m: int| start.len() <= m < nodes@.len() && !kids@.contains(m as usize) implies
        #[trigger] listed_before(order@, p0, m) by {
        assert(listed(order@, old(order)@.len() as int, m));
        let q = choose|q: int| old(order)@.len() <= q < order@.len() && order@[q] == m;
        assert(0 <= q < p0 && order@[q] == m);
    };
    assert(order@.subrange(p0, p0) =~= kids@.subrange(0, 0));
    let mut j: usize = 0;
    while j < kids.len()
        invariant
            start == old(nodes)@,
            nodes@.len() == start.len() + nodes_count(list@, assets@, fuel as nat),
            parents_within(nodes@, start.len() as int, parent as int),
            kids_tile(nodes@, kids@, start.len() as int),
            order@.len() + kids@.len() == old(order)@.len() + nodes@.len() - start.len() + j,
            0 <= p0,
            order@.len() == p0 + j,
            order@.subrange(p0, p0 + j) == kids@.subrange(0, j as int),
            forall|m: int| start.len() <= m < nodes@.len() && !kids@.contains(m as usize) ==>
                #[trigger] listed_before(order@, p0, m),
            forall|m: int| start.len() <= m < nodes@.len() ==> #[trigger] children_block(order@, nodes@, m),
            start.len() + nodes_count(list@, assets@, fuel as nat) <= usize::MAX,
            forall|m: int| start.len() <= m < nodes@.len() ==> (#[trigger] listed(order@, old(order)@.len() as int, m)
                || kids@.subrange(j as int, kids@.len() as int).contains(m as usize)),
            j <= kids@.len(),
            forall|m: int| 0 <= m < kids@.len() ==> parent < #[trigger] kids@[m] < nodes@.len()
                && start.len() <= kids@[m]
                && nodes@[kids@[m] as int].parent == Some(parent)
                && nodes@[kids@[m] as int].node_id@ == parent_id@.push(list@[m].id@),
            kids@.len() == list@.len(),
            forall|m: int| 0 <= m < kids@.len() ==> spawned(
                nodes@,
                #[trigger] kids@[m] as int,
                list@[m],
                *parent_layout,
                assets@,
                fuel as nat,
                parent_id@,
            ),
            order_extended(old(order)@, order@, start.len() as int, nodes@.len() as int),
            appended(start, nodes@, start.len() as int),
        decreases kids@.len() - j,
    {
        proof { lemma_order_push(old(order)@, order@, kids@[j as int], start.len() as int, nodes@.len() as int); }
        let ghost order_before = order@;
        order.push(kids[j]);
        proof {
            assert(order@.subrange(0, order_before.len() as int) =~= order_before);
            assert forall|m: int| start.len() <= m < nodes@.len() implies #[trigger] children_block(order@, nodes@, m) by {
                lemma_children_block_extended(order_before, order@, nodes@, nodes@, m);
            };
            assert(order@.subrange(p0, p0 + j + 1) =~= kids@.subrange(0, j + 1)) by {
                assert(order_before.subrange(p0, p0 + j) == kids@.subrange(0, j as int));
                assert(order@ == order_before.push(kids@[j as int]));
                assert(order_before.len() == p0 + j);
                assert forall|x: int| 0 <= x < j + 1 implies #[trigger] order@.subrange(p0, p0 + j + 1)[x] == kids@.subrange(0, j + 1)[x] by {
                    assert(order@.subrange(p0, p0 + j + 1)[x] == order@[p0 + x]);
                    assert(kids@.subrange(0, j + 1)[x] == kids@[x]);
                    if x < j {
                        assert(order_before.subrange(p0, p0 + j)[x] == kids@.subrange(0, j as int)[x]);
                        assert(order@[p0 + x] == order_before[p0 + x]);
                    } else {
                        assert(order@[p0 + x] == kids@[j as int]);
                    }
                };
            };
            assert forall|m: int| start.len() <= m < nodes@.len() && !kids@.contains(m as usize) implies
                #[trigger] listed_before(order@, p0, m) by {
                assert(listed_before(order_before, p0, m));
                let q = choose|q: int| 0 <= q < p0 && order_before[q] == m;
                assert(order@[q] == m);
            };
            assert forall|m: int| start.len() <= m < nodes@.len() implies (#[trigger] listed(order@, old(order)@.len() as int, m)
                || kids@.subrange(j + 1, kids@.len() as int).contains(m as usize)) by {
                if listed(order_before, old(order)@.len() as int, m) {
                    let q = choose|q: int| old(order)@.len() <= q < order_before.len() && order_before[q] == m;
                    assert(order@[q] == m);
                } else {
                    let w = choose|w: int| 0 <= w < kids@.subrange(j as int, kids@.len() as int).len()
                        && kids@.subrange(j as int, kids@.len() as int)[w] == m as usize;
                    if w == 0 {
                        assert(kids@.subrange(j as int, kids@.len() as int)[0] == kids@[j as int]);
                        assert(0 <= m < nodes@.len());
                        assert(order@ == order_before.push(kids@[j as int]));
                        assert(order@[order_before.len() as int] == m);
                    } else {
                        assert(kids@.subrange(j + 1, kids@.len() as int)[w - 1] == m as usize);
                    }
                }
            };
        }
        j = j + 1;
    }
    assert(kids@.subrange(0, kids@.len() as int) =~= kids@);
    assert(block_at(order@, kids@, nodes@.len() as int, start.len() - 1, p0));
    Ok(kids)
}

/// Spawns one authored node, and its subtree, as a child of `parent`.
#[verifier::rlimit(100)]
fn spawn_node(
    nodes: &mut Vec<LiveNode>,
    assets: &Vec<LayoutAsset>,
    parent_layout: &Layout,
    parent: usize,
    parent_id: &LayoutNodeId,
    node: &LayoutNode,
    fuel: usize,
    order: &mut Vec<usize>,
) -> (r: Result<usize, SpawnLayoutError>)
    requires
        parent < old(nodes)@.len(),
        old(nodes)@.len() + node_count(*node, assets@, fuel as nat) <= usize::MAX,
    ensures
        appended(old(nodes)@, final(nodes)@, old(nodes)@.len() as int),
        r is Ok <==> node_outcome(*node, assets@, fuel as nat) is None,
        r matches Err(e) ==> node_outcome(*node, assets@, fuel as nat) == Some(e),
        r is Ok ==> final(nodes)@.len() == old(nodes)@.len() + node_count(*node, assets@, fuel as nat),
        r matches Ok(i) ==> i == old(nodes)@.len() && i < final(nodes)@.len()
            && final(nodes)@[i as int].parent == Some(parent)
            && final(nodes)@[i as int].node_id@ == parent_id@.push(node.id@)
            && final(nodes)@[i as int].subtree_end == final(nodes)@.len()
            && rooted(final(nodes)@, i as int, final(nodes)@.len() as int)
            && final(order)@.len() + 1 == old(order)@.len() + final(nodes)@.len() - old(nodes)@.len()
            && spawned(final(nodes)@, i as int, *node, *parent_layout, assets@, fuel as nat, parent_id@)
            && (forall|j: int| old(nodes)@.len() < j < final(nodes)@.len() ==> #[trigger] listed(
                final(order)@,
                old(order)@.len() as int,
                j,
            ))
            && (forall|m: int| old(nodes)@.len() <= m < final(nodes)@.len() ==> #[trigger] children_block(
                final(order)@,
                final(nodes)@,
                m,
            )),
        order_extended(old(order)@, final(order)@, old(nodes)@.len() as int, final(nodes)@.len() as int),
    decreases fuel, node, 1nat,
{
    let ghost start = nodes@;
    proof { lemma_order_same(order@, start.len() as int, start.len() as int); }
    let idx = nodes.len();
    nodes.push(placeholder(Some(parent), idx));
    proof {
        assert forall|i: int| 0 <= i < start.len() implies #[trigger] nodes@[i] == start[i] by {};
        assert(node_ok(nodes@, idx as int, nodes@.len() as int));
    }
    let geometry = Node::new_from_layout_node(node);
    let attributes = copy_indices(&node.attributes);
    let id = node.id.clone();
    let node_id = parent_id.join(node.id.as_str());
    let ghost own_id = node_id@;
    let mut kids: Vec<usize> = Vec::new();
    let mut layout_info: Option<LayoutInfo> = None;
    let mut playback: Option<LayoutAnimationPlaybackState> = None;
    let mut layout_path: Option<String> = None;
    let mut visual_anchor = Anchor::Center;
    let payload = match &node.inner {
        LayoutNodeInner::Null => NodePayload::Empty,
        LayoutNodeInner::Image(image) => NodePayload::Image {
            path: image.path.clone(),
            tint: match image.tint {
                Some(c) => c,
                None => Color { r: 255, g: 255, b: 255, a: 255 },
            },
        },
        LayoutNodeInner::Text(text) => {
            visual_anchor = text.alignment.anchor();
            NodePayload::Text {
                text: text.text.clone(),
                size: text.size,
                font: text.font.clone(),
                color: text.color,
                alignment: text.alignment,
            }
        },
        LayoutNodeInner::Layout(data) => {
            let found = find_asset(assets, &data.path);
            let a = match found {
                Some(a) => a,
                None => {
                    proof { lemma_order_same(order@, start.len() as int, nodes@.len() as int); }
                    return Err(SpawnLayoutError::NotLoaded);
                },
            };
            if fuel == 0 {
                proof { lemma_order_same(order@, start.len() as int, nodes@.len() as int); }
                return Err(SpawnLayoutError::Cyclic);
            }
            let asset = &assets[a].layout;
            layout_info = Some(LayoutInfo {
                parent_resolution: parent_layout.get_resolution(),
                resolution: asset.get_resolution(),
                canvas_size: pixels(asset.canvas_size),
            });
            playback = Some(LayoutAnimationPlaybackState::new(copy_names(&asset.animations)));
            layout_path = Some(data.path.clone());
            kids = spawn_children(nodes, assets, asset, idx, &node_id, &asset.nodes, fuel - 1, order)?;
            NodePayload::Empty
        },
        LayoutNodeInner::Group(group) => {
            layout_info = Some(LayoutInfo::unscaled(node.size));
            kids = spawn_children(nodes, assets, parent_layout, idx, &node_id, &group.nodes, fuel, order)?;
            NodePayload::Empty
        },
    };
    let ghost mid = nodes@;
    let ghost kids_view = kids@;
    let end = nodes.len();
    nodes.set(idx, LiveNode {
        id,
        node_id,
        kind: node.inner.node_kind(),
        node: geometry,
        visual_anchor,
        parent: Some(parent),
        children: kids,
        subtree_end: end,
        z_index: ZIndex::NeedsRecalculation,
        layout_info,
        attributes,
        payload,
        playback,
        layout_path,
    });
    proof {
        assert forall|i: int| start.len() <= i < nodes@.len() implies
            #[trigger] node_ok(nodes@, i, nodes@.len() as int) by {
            if i != idx {
                assert(nodes@[i] == mid[i]);
                assert(node_ok(mid, i, mid.len() as int));
            }
        };
        assert forall|j: int| idx + 1 <= j < mid.len() implies #[trigger] nodes@[j] == mid[j] by {};
        assert forall|j: int| idx + 1 <= j < mid.len() implies #[trigger] node_ok(mid, j, mid.len() as int) by {};
        assert(order@.subrange(0, order@.len() as int) =~= order@);
        assert forall|m: int| idx < m < nodes@.len() implies #[trigger] children_block(order@, nodes@, m) by {
            lemma_children_block_extended(order@, order@, mid, nodes@, m);
        };
        assert(node_ok(nodes@, idx as int, nodes@.len() as int));
        if kids_view.len() == 0 {
            assert(order@.subrange(0, 0) =~= nodes@[idx as int].children@);
            assert(block_at(order@, nodes@[idx as int].children@, nodes@[idx as int].subtree_end as int, idx as int, 0));
        } else {
            match &node.inner {
                LayoutNodeInner::Group(_) | LayoutNodeInner::Layout(_) => {
                    let p = choose|p: int| #[trigger] block_at(order@, kids_view, mid.len() as int, idx as int, p);
                    assert(block_at(order@, nodes@[idx as int].children@, nodes@[idx as int].subtree_end as int, idx as int, p));
                },
                _ => {},
            }
        }
        assert(children_block(order@, nodes@, idx as int));
        assert(live_matches(nodes@[idx as int], *node));
        match &node.inner {
            LayoutNodeInner::Group(g) => {
                assert forall|k: int| 0 <= k < g.nodes@.len() implies spawned(
                    nodes@,
                    #[trigger] nodes@[idx as int].children@[k] as int,
                    g.nodes@[k],
                    *parent_layout,
                    assets@,
                    fuel as nat,
                    nodes@[idx as int].node_id@,
                ) by {
                    lemma_spawned_stable(mid, nodes@, idx + 1, kids_view[k] as int, g.nodes@[k], *parent_layout, assets@, fuel as nat, own_id);
                };
            },
            LayoutNodeInner::Layout(d) => {
                let sub = assets@[first_asset(assets@, d.path@)->0].layout;
                assert forall|k: int| 0 <= k < sub.nodes@.len() implies spawned(
                    nodes@,
                    #[trigger] nodes@[idx as int].children@[k] as int,
                    sub.nodes@[k],
                    sub,
                    assets@,
                    (fuel - 1) as nat,
                    nodes@[idx as int].node_id@,
                ) by {
                    lemma_spawned_stable(mid, nodes@, idx + 1, kids_view[k] as int, sub.nodes@[k], sub, assets@, (fuel - 1) as nat, own_id);
                };
            },
            _ => {},
        }
    }
    Ok(idx)
}

/// The first of the nodes `kids` whose id is `name`.
pub open spec fn first_child_named(nodes: Seq<LiveNode>, kids: Seq<usize>, name: Seq<char>) -> Option<usize>
    decreases kids.len(),
{
    if kids.len() == 0 {
        None
    } else {
        match first_child_named(nodes, kids.drop_last(), name) {
            Some(c) => Some(c),
            None => if nodes[kids.last() as int].id@ == name { Some(kids.last()) } else { None },
        }
    }
}

/// The walk from `start` along `path`, one child id at a time: the node
/// reached, or the node where it stopped with the id it did not find.
pub open spec fn lookup(nodes: Seq<LiveNode>, start: usize, path: Seq<Seq<char>>) -> Result<usize, (usize, Seq<char>)>
    decreases path.len(),
{
    if path.len() == 0 {
        Ok(start)
    } else {
        match first_child_named(nodes, nodes[start as int].children@, path[0]) {
            None => Err((start, path[0])),
            Some(c) => lookup(nodes, c, path.drop_first()),
        }
    }
}

/// The node reached from `start` by following `path`, one child id at a time.
pub open spec fn descendant(nodes: Seq<LiveNode>, start: usize, path: Seq<Seq<char>>) -> Option<usize> {
    match lookup(nodes, start, path) {
        Ok(c) => Some(c),
        Err(_) => None,
    }
}

proof fn lemma_first_child_named(nodes: Seq<LiveNode>, kids: Seq<usize>, name: Seq<char>, k: int)
    requires
        0 <= k <= kids.len(),
        forall|j: int| 0 <= j < k ==> nodes[#[trigger] kids[j] as int].id@ != name,
    ensures
        k < kids.len() && nodes[kids[k] as int].id@ == name ==> first_child_named(nodes, kids, name) == Some(kids[k]),
        k == kids.len() ==> first_child_named(nodes, kids, name) is None,
    decreases kids.len(),
{
    if kids.len() > 0 {
        if k < kids.len() && nodes[kids[k] as int].id@ == name {
            lemma_first_child_named(nodes, kids.drop_last(), name, k);
        } else if k == kids.len() {
            lemma_first_child_named(nodes, kids.drop_last(), name, k - 1);
        }
    }
}

/// The scale that a frame-hosting node of geometry `node` applies.
pub open spec fn self_scale(info: LayoutInfo, node: Node) -> Scale {
    Scale {
        x: Ratio {
            num: (info.parent_resolution.x * node.size.x) as i128,
            den: (info.resolution.x * info.canvas_size.x) as i128,
        },
        y: Ratio {
            num: (info.parent_resolution.y * node.size.y) as i128,
            den: (info.resolution.y * info.canvas_size.y) as i128,
        },
    }
}

/// The frame that node `i` is placed in: its parent's, if the parent hosts one.
pub open spec fn parent_frame(nodes: Seq<LiveNode>, i: int) -> Option<LayoutInfo> {
    match nodes[i].parent {
        Some(p) => nodes[p as int].layout_info,
        None => None,
    }
}

/// Where node `i` is placed in its parent's space.
pub open spec fn world_position(nodes: Seq<LiveNode>, i: int) -> (int, int) {
    let n = nodes[i];
    match parent_frame(nodes, i) {
        Some(info) => (
            position_at(n.node, n.visual_anchor).0 - info.canvas_size.x / 2,
            info.canvas_size.y / 2 - position_at(n.node, n.visual_anchor).1,
        ),
        None => (n.node.position.x as int, n.node.position.y as int),
    }
}

/// The geometry of node `i` and of the frame it is placed in is within range.
pub open spec fn transform_in_range(nodes: Seq<LiveNode>, i: int) -> bool {
    &&& nodes[i].node.in_range()
    &&& (parent_frame(nodes, i) matches Some(info) ==> info.in_range())
}

/// The local transform of node `i`; none when its geometry is out of range.
pub open spec fn transform_of(nodes: Seq<LiveNode>, i: int) -> Option<LocalTransform> {
    if !transform_in_range(nodes, i) {
        None
    } else {
        Some(LocalTransform {
            translation: match nodes[i].z_index {
                ZIndex::Calculated(z) => Some(Translation {
                    position: Vec2 {
                        x: world_position(nodes, i).0 as i64,
                        y: world_position(nodes, i).1 as i64,
                    },
                    z,
                }),
                ZIndex::NeedsRecalculation => None,
            },
            scale: match nodes[i].layout_info {
                Some(info) => Some(self_scale(info, nodes[i].node)),
                None => None,
            },
            rotation: nodes[i].node.rotation,
        })
    }
}

/// Layout and group nodes host coordinate frames and paint behind their contents.
pub open spec fn is_container(k: NodeKind) -> bool {
    k == NodeKind::Layout || k == NodeKind::Group
}

/// The number of non-container nodes among `nodes[from..to]`.
pub open spec fn leaves_between(nodes: Seq<LiveNode>, from: int, to: int) -> int
    decreases to - from,
{
    if to <= from {
        0
    } else {
        leaves_between(nodes, from, to - 1) + if is_container(nodes[to - 1].kind) { 0int } else { 1int }
    }
}

/// The paint order of node `i` in the subtree that starts at `root`:
/// containers are behind, and other nodes count up in document order.
pub open spec fn z_of(nodes: Seq<LiveNode>, root: int, i: int) -> ZIndex {
    if is_container(nodes[i].kind) {
        ZIndex::Calculated(0)
    } else {
        ZIndex::Calculated(leaves_between(nodes, root, i) as usize)
    }
}

proof fn lemma_leaves_bound(nodes: Seq<LiveNode>, from: int, to: int)
    requires
        from <= to,
    ensures
        0 <= leaves_between(nodes, from, to) <= to - from,
    decreases to - from,
{
    if to > from {
        lemma_leaves_bound(nodes, from, to - 1);
    }
}

proof fn lemma_leaves_same(a: Seq<LiveNode>, b: Seq<LiveNode>, from: int, to: int)
    requires
        forall|j: int| from <= j < to ==> (#[trigger] a[j]).kind == b[j].kind,
    ensures
        leaves_between(a, from, to) == leaves_between(b, from, to),
    decreases to - from,
{
    if to > from {
        lemma_leaves_same(a, b, from, to - 1);
    }
}

/// Z indices depend on the kinds of the subtree's nodes alone: recomputing
/// them after any change that keeps the structure, such as marking one of
/// them for recalculation, yields the same document-order sequence.
pub proof fn lemma_z_index_stable(a: Seq<LiveNode>, b: Seq<LiveNode>, root: int, end: int)
    requires
        0 <= root <= end <= a.len(),
        end <= b.len(),
        forall|j: int| root <= j < end ==> (#[trigger] a[j]).kind == b[j].kind,
    ensures
        forall|i: int| root <= i < end ==> #[trigger] z_of(a, root, i) == z_of(b, root, i),
{
    assert forall|i: int| root <= i < end implies #[trigger] z_of(a, root, i) == z_of(b, root, i) by {
        lemma_leaves_same(a, b, root, i);
    };
}

/// Node `i` after its paint order was set to `z`.
pub open spec fn with_z(n: LiveNode, z: ZIndex) -> LiveNode {
    LiveNode { z_index: z, ..n }
}

/// A position in the parent's space with a paint order.
#[derive(Clone, Copy, Debug, PartialEq, Eq, Structural)]
pub struct Translation {
    pub position: Vec2,
    pub z: usize,
}

/// The local transform of a node, before the host converts it to floats.
#[derive(Clone, Copy, Debug, PartialEq, Eq, Structural)]
pub struct LocalTransform {
    /// The position in the parent's space and the paint order; none while
    /// the paint order is not calculated.
    pub translation: Option<Translation>,
    /// The scale that a frame-hosting node applies; none for a unit scale.
    pub scale: Option<Scale>,
    /// Rotation about the node's center, in fixed-point degrees.
    pub rotation: i64,
}

/// The result of a successful spawn.
pub struct SpawnedLayout {
    /// The index of the layout's root node.
    pub root: usize,
    /// Every spawned node but the root, in the order its attributes are to be
    /// applied: the children of each node, once all their own subtrees exist.
    pub apply_order: Vec<usize>,
}

/// The arena of live nodes.
pub struct Scene {
    nodes: Vec<LiveNode>,
}

impl Scene {
    pub closed spec fn view(&self) -> Seq<LiveNode> {
        self.nodes@
    }

    pub open spec fn well_formed(&self) -> bool {
        scene_ok(self@)
    }

    pub fn new() -> (r: Self)
        ensures
            r@.len() == 0,
            r.well_formed(),
    {
        Scene { nodes: Vec::new() }
    }

    pub fn len(&self) -> (r: usize)
        ensures
            r == self@.len(),
    {
        self.nodes.len()
    }

    pub fn node(&self, i: usize) -> (r: &LiveNode)
        requires
            i < self@.len(),
        ensures
            *r == self@[i as int],
    {
        &self.nodes[i]
    }

    /// Recomputes the paint order of every node of the subtree at `root`, in
    /// one walk in document order.
    pub fn refresh_z_index(&mut self, root: usize)
        requires
            old(self).well_formed(),
            root < old(self)@.len(),
        ensures
            final(self).well_formed(),
            final(self)@.len() == old(self)@.len(),
            forall|i: int| 0 <= i < old(self)@.len() ==> #[trigger] final(self)@[i] == (if root <= i
                < old(self)@[root as int].subtree_end {
                with_z(old(self)@[i], z_of(old(self)@, root as int, i))
            } else {
                old(self)@[i]
            }),
    {
        let ghost before = self.nodes@;
        let end = self.nodes[root].subtree_end;
        assert(node_ok(before, root as int, before.len() as int));
        let mut counter: usize = 0;
        let mut i: usize = root;
        while i < end
            invariant
                root <= i <= end <= before.len(),
                end == before[root as int].subtree_end,
                self.nodes@.len() == before.len(),
                counter == leaves_between(before, root as int, i as int),
                forall|j: int| 0 <= j < before.len() ==> #[trigger] self.nodes@[j] == (if root <= j < i {
                    with_z(before[j], z_of(before, root as int, j))
                } else {
                    before[j]
                }),
            decreases end - i,
        {
            proof { lemma_leaves_bound(before, root as int, i as int); }
            let kind = self.nodes[i].kind;
            if kind == NodeKind::Layout || kind == NodeKind::Group {
                self.nodes[i].z_index = ZIndex::Calculated(0);
            } else {
                self.nodes[i].z_index = ZIndex::Calculated(counter);
                counter = counter + 1;
            }
            i = i + 1;
        }
        proof {
            assert forall|j: int| 0 <= j < self.nodes@.len() implies
                #[trigger] node_ok(self.nodes@, j, self.nodes@.len() as int) by {
                assert(node_ok(before, j, before.len() as int));
            };
        }
    }

    /// Marks the paint order of node `i` for recalculation.
    pub fn mark_z_index_dirty(&mut self, i: usize)
        requires
            old(self).well_formed(),
            i < old(self)@.len(),
        ensures
            final(self).well_formed(),
            final(self)@ == old(self)@.update(i as int, with_z(old(self)@[i as int], ZIndex::NeedsRecalculation)),
    {
        let ghost before = self.nodes@;
        self.nodes[i].z_index = ZIndex::NeedsRecalculation;
        assert(self.nodes@ =~= before.update(i as int, with_z(before[i as int], ZIndex::NeedsRecalculation)));
        proof {
            assert forall|j: int| 0 <= j < self.nodes@.len() implies
                #[trigger] node_ok(self.nodes@, j, self.nodes@.len() as int) by {
                assert(node_ok(before, j, before.len() as int));
            };
        }
    }

    /// Recomputes the paint order of the whole subtree at `root` when any of
    /// its nodes is marked for recalculation; tells whether it did.
    pub fn refresh_z_index_if_dirty(&mut self, root: usize) -> (r: bool)
        requires
            old(self).well_formed(),
            root < old(self)@.len(),
        ensures
            final(self).well_formed(),
            final(self)@.len() == old(self)@.len(),
            r == exists|i: int| root <= i < old(self)@[root as int].subtree_end
                && (#[trigger] old(self)@[i]).z_index == ZIndex::NeedsRecalculation,
            !r ==> final(self)@ == old(self)@,
            r ==> forall|i: int| 0 <= i < old(self)@.len() ==> #[trigger] final(self)@[i] == (if root <= i
                < old(self)@[root as int].subtree_end {
                with_z(old(self)@[i], z_of(old(self)@, root as int, i))
            } else {
                old(self)@[i]
            }),
    {
        let end = self.nodes[root].subtree_end;
        assert(node_ok(self.nodes@, root as int, self.nodes@.len() as int));
        let mut i: usize = root;
        while i < end
            invariant
                self@ == old(self)@,
                self.well_formed(),
                root <= i <= end <= self.nodes@.len(),
                end == self.nodes@[root as int].subtree_end,
                forall|j: int| root <= j < i ==> (#[trigger] self.nodes@[j]).z_index != ZIndex::NeedsRecalculation,
            decreases end - i,
        {
            if self.nodes[i].z_index == ZIndex::NeedsRecalculation {
                self.refresh_z_index(root);
                return true;
            }
            i = i + 1;
        }
        false
    }

    /// Walks from `start` along `path`; on failure, the node where the walk
    /// stopped and the position in `path` of the id it did not find.
    fn walk(&self, start: usize, path: &Vec<String>) -> (r: Result<usize, (usize, usize)>)
        requires
            self.well_formed(),
            start < self@.len(),
        ensures
            match r {
                Ok(c) => lookup(self@, start, path@.map_values(|s: String| s@)) == Ok::<usize, (usize, Seq<char>)>(c)
                    && c < self@.len(),
                Err((x, k)) => k < path@.len() && x < self@.len()
                    && lookup(self@, start, path@.map_values(|s: String| s@)) == Err::<usize, (usize, Seq<char>)>((x, path@[k as int]@)),
            },
    {
        let ghost ids = path@.map_values(|s: String| s@);
        let mut current: usize = start;
        let mut idx: usize = 0;
        assert(ids.subrange(0, ids.len() as int) =~= ids);
        while idx < path.len()
            invariant
                self.well_formed(),
                current < self@.len(),
                idx <= path@.len(),
                ids == path@.map_values(|s: String| s@),
                lookup(self@, start, ids) == lookup(self@, current, ids.subrange(idx as int, ids.len() as int)),
            decreases path@.len() - idx,
        {
            let ghost rest = ids.subrange(idx as int, ids.len() as int);
            let name = &path[idx];
            let kids = &self.nodes[current].children;
            assert(node_ok(self@, current as int, self@.len() as int));
            let mut k: usize = 0;
            while k < kids.len() && self.nodes[kids[k]].id != *name
                invariant
                    self.well_formed(),
                    kids@ == self@[current as int].children@,
                    node_ok(self@, current as int, self@.len() as int),
                    k <= kids@.len(),
                    forall|j: int| 0 <= j < k ==> self@[#[trigger] kids@[j] as int].id@ != name@,
                decreases kids@.len() - k,
            {
                k = k + 1;
            }
            proof { lemma_first_child_named(self@, kids@, name@, k as int); }
            assert(rest[0] == name@);
            if k == kids.len() {
                return Err((current, idx));
            }
            current = kids[k];
            assert(rest.drop_first() =~= ids.subrange(idx + 1, ids.len() as int));
            idx = idx + 1;
        }
        Ok(current)
    }

    /// The node reached from `start` by following `path`, one child id at a
    /// time; `start` itself for an empty path.
    pub fn try_get_descendant_id(&self, start: usize, path: &Vec<String>) -> (r: Option<usize>)
        requires
            self.well_formed(),
            start < self@.len(),
        ensures
            r == descendant(self@, start, path@.map_values(|s: String| s@)),
            r matches Some(i) ==> i < self@.len(),
    {
        match self.walk(start, path) {
            Ok(c) => Some(c),
            Err(_) => None,
        }
    }

    /// The node at `path` below node `i`. A failed walk reports the node
    /// where it stopped, and the missing id if that node has children.
    pub fn get_child(&self, i: usize, path: &Vec<String>) -> (r: Result<usize, NodeEntityError>)
        requires
            self.well_formed(),
            i < self@.len(),
        ensures
            match lookup(self@, i, path@.map_values(|s: String| s@)) {
                Ok(c) => r == Ok::<usize, NodeEntityError>(c),
                Err((x, name)) => if self@[x as int].children@.len() == 0 {
                    r == Err::<usize, NodeEntityError>(NodeEntityError::NoChildren(x))
                } else {
                    r matches Err(NodeEntityError::NoChildWithName(y, n)) && y == x && n@ == name
                },
            },
    {
        match self.walk(i, path) {
            Ok(c) => Ok(c),
            Err((x, k)) => {
                if self.nodes[x].children.len() == 0 {
                    Err(NodeEntityError::NoChildren(x))
                } else {
                    Err(NodeEntityError::NoChildWithName(x, path[k].clone()))
                }
            },
        }
    }

    /// The parent of node `i`.
    pub fn get_parent(&self, i: usize) -> (r: Result<usize, NodeEntityError>)
        requires
            i < self@.len(),
        ensures
            r == match self@[i as int].parent {
                Some(p) => Ok(p),
                None => Err(NodeEntityError::NoParent(i)),
            },
    {
        match self.nodes[i].parent {
            Some(p) => Ok(p),
            None => Err(NodeEntityError::NoParent(i)),
        }
    }

    /// The node at `path` below the parent of node `i`.
    pub fn get_sibling(&self, i: usize, path: &Vec<String>) -> (r: Result<usize, NodeEntityError>)
        requires
            self.well_formed(),
            i < self@.len(),
        ensures
            match self@[i as int].parent {
                None => r == Err::<usize, NodeEntityError>(NodeEntityError::NoParent(i)),
                Some(p) => match lookup(self@, p, path@.map_values(|s: String| s@)) {
                    Ok(c) => r == Ok::<usize, NodeEntityError>(c),
                    Err((x, name)) => if self@[x as int].children@.len() == 0 {
                        r == Err::<usize, NodeEntityError>(NodeEntityError::NoChildren(x))
                    } else {
                        r matches Err(NodeEntityError::NoChildWithName(y, n)) && y == x && n@ == name
                    },
                },
            },
    {
        match self.nodes[i].parent {
            None => Err(NodeEntityError::NoParent(i)),
            Some(p) => {
                assert(node_ok(self@, i as int, self@.len() as int));
                self.get_child(p, path)
            },
        }
    }

    /// The root of the layout that node `i` belongs to.
    pub fn get_root(&self, i: usize) -> (r: usize)
        requires
            self.well_formed(),
            i < self@.len(),
        ensures
            r == root_of(self@, i as int),
            r < self@.len(),
            self@[r as int].parent is None,
    {
        let mut cur: usize = i;
        while self.nodes[cur].parent.is_some()
            invariant
                self.well_formed(),
                cur < self@.len(),
                root_of(self@, cur as int) == root_of(self@, i as int),
            decreases cur,
        {
            assert(node_ok(self@, cur as int, self@.len() as int));
            cur = self.nodes[cur].parent.unwrap();
        }
        cur
    }

    /// The local transform of node `i`, from its declared geometry and the
    /// frame it is placed in; none when that geometry is out of range.
    pub fn compute_transform(&self, i: usize) -> (r: Option<LocalTransform>)
        requires
            self.well_formed(),
            i < self@.len(),
        ensures
            r == transform_of(self@, i as int),
            r matches Some(t) ==> (t.translation matches Some(tr) ==> tr.position.x == world_position(
                self@,
                i as int,
            ).0 && tr.position.y == world_position(self@, i as int).1),
    {
        let live = &self.nodes[i];
        let n = live.node;
        if !(-crate::geometry::MAX_COORD <= n.position.x && n.position.x <= crate::geometry::MAX_COORD
            && -crate::geometry::MAX_COORD <= n.position.y && n.position.y <= crate::geometry::MAX_COORD
            && -crate::geometry::MAX_COORD <= n.size.x && n.size.x <= crate::geometry::MAX_COORD
            && -crate::geometry::MAX_COORD <= n.size.y && n.size.y <= crate::geometry::MAX_COORD) {
            return None;
        }
        let frame: Option<LayoutInfo> = match live.parent {
            Some(p) => {
                assert(node_ok(self@, i as int, self@.len() as int));
                self.nodes[p].layout_info
            },
            None => None,
        };
        let position = match frame {
            Some(info) => {
                let c = info.canvas_size;
                if !(-crate::geometry::MAX_COORD <= c.x && c.x <= crate::geometry::MAX_COORD
                    && -crate::geometry::MAX_COORD <= c.y && c.y <= crate::geometry::MAX_COORD) {
                    return None;
                }
                info.get_child_world_position(&n, live.visual_anchor)
            },
            None => n.position,
        };
        let scale = match live.layout_info {
            Some(info) => Some(info.calculate_self_node_scale(&n)),
            None => None,
        };
        let translation = match live.z_index {
            ZIndex::Calculated(z) => Some(Translation { position, z }),
            ZIndex::NeedsRecalculation => None,
        };
        Some(LocalTransform { translation, scale, rotation: n.rotation })
    }

    /// The local transforms of all nodes, parents before children.
    pub fn compute_transforms(&self) -> (r: Vec<Option<LocalTransform>>)
        requires
            self.well_formed(),
        ensures
            r@.len() == self@.len(),
            forall|i: int| 0 <= i < self@.len() ==> #[trigger] r@[i] == transform_of(self@, i),
    {
        let mut out: Vec<Option<LocalTransform>> = Vec::new();
        let mut i: usize = 0;
        while i < self.nodes.len()
            invariant
                self.well_formed(),
                i <= self@.len(),
                out@.len() == i,
                forall|j: int| 0 <= j < i ==> #[trigger] out@[j] == transform_of(self@, j),
            decreases self@.len() - i,
        {
            out.push(self.compute_transform(i));
            i = i + 1;
        }
        out
    }

    /// Replaces the declared geometry of node `i`.
    pub fn set_node(&mut self, i: usize, node: Node)
        requires
            old(self).well_formed(),
            i < old(self)@.len(),
        ensures
            final(self).well_formed(),
            final(self)@ == old(self)@.update(i as int, LiveNode { node, ..old(self)@[i as int] }),
    {
        let ghost before = self.nodes@;
        self.nodes[i].node = node;
        assert(self.nodes@ =~= before.update(i as int, LiveNode { node, ..before[i as int] }));
        proof {
            assert forall|j: int| 0 <= j < self.nodes@.len() implies
                #[trigger] node_ok(self.nodes@, j, self.nodes@.len() as int) by {
                assert(node_ok(before, j, before.len() as int));
            };
        }
    }

    /// Takes the animation playback state out of node `i`, to be handed back
    /// with `restore_playback` once it has been worked on.
    pub fn take_playback(&mut self, i: usize) -> (r: Option<LayoutAnimationPlaybackState>)
        requires
            old(self).well_formed(),
            i < old(self)@.len(),
        ensures
            final(self).well_formed(),
            r == old(self)@[i as int].playback,
            r matches Some(p) ==> p.well_formed(),
            final(self)@ == old(self)@.update(i as int, LiveNode { playback: None, ..old(self)@[i as int] }),
    {
        let ghost before = self.nodes@;
        assert(node_ok(before, i as int, before.len() as int));
        let r = self.nodes[i].playback.take();
        assert(self.nodes@ =~= before.update(i as int, LiveNode { playback: None, ..before[i as int] }));
        proof {
            assert forall|j: int| 0 <= j < self.nodes@.len() implies
                #[trigger] node_ok(self.nodes@, j, self.nodes@.len() as int) by {
                assert(node_ok(before, j, before.len() as int));
            };
        }
        r
    }

    /// Puts an animation playback state into node `i`.
    pub fn restore_playback(&mut self, i: usize, playback: Option<LayoutAnimationPlaybackState>)
        requires
            old(self).well_formed(),
            i < old(self)@.len(),
            playback matches Some(p) ==> p.well_formed(),
        ensures
            final(self).well_formed(),
            final(self)@ == old(self)@.update(i as int, LiveNode { playback, ..old(self)@[i as int] }),
    {
        let ghost before = self.nodes@;
        self.nodes[i].playback = playback;
        assert(self.nodes@ =~= before.update(i as int, LiveNode { playback, ..before[i as int] }));
        proof {
            assert forall|j: int| 0 <= j < self.nodes@.len() implies
                #[trigger] node_ok(self.nodes@, j, self.nodes@.len() as int) by {
                assert(node_ok(before, j, before.len() as int));
            };
        }
    }
}

/// Spawns `layout` as a new root, resolving nested layouts in `assets`.
///
/// On failure nothing of the layout stays in the scene.
#[verifier::rlimit(100)]
pub fn spawn_layout(scene: &mut Scene, layout: &Layout, assets: &Vec<LayoutAsset>) -> (r: Result<
    SpawnedLayout,
    SpawnLayoutError,
>)
    requires
        old(scene).well_formed(),
        old(scene)@.len() + 1 + nodes_count(layout.nodes@, assets@, assets@.len()) <= usize::MAX,
    ensures
        final(scene).well_formed(),
        r is Ok <==> nodes_outcome(layout.nodes@, assets@, assets@.len()) is None,
        r matches Err(e) ==> nodes_outcome(layout.nodes@, assets@, assets@.len()) == Some(e),
        r is Err ==> final(scene)@ == old(scene)@,
        r is Ok ==> final(scene)@.len() == old(scene)@.len() + 1 + nodes_count(layout.nodes@, assets@, assets@.len()),
        r matches Ok(s) ==> {
            &&& s.root == old(scene)@.len()
            &&& final(scene)@.len() > s.root
            &&& forall|i: int| 0 <= i < old(scene)@.len() ==> #[trigger] final(scene)@[i] == old(scene)@[i]
            &&& final(scene)@[s.root as int].parent is None
            &&& final(scene)@[s.root as int].node_id@ == seq![root_segment()]
            &&& final(scene)@[s.root as int].kind == NodeKind::Layout
            &&& final(scene)@[s.root as int].subtree_end == final(scene)@.len()
            &&& final(scene)@[s.root as int].layout_info == Some(LayoutInfo {
                parent_resolution: UVec2 { x: 1, y: 1 },
                resolution: UVec2 { x: 1, y: 1 },
                canvas_size: pixels_of(layout.canvas_size),
            })
            &&& final(scene)@[s.root as int].children@.len() == layout.nodes@.len()
            &&& forall|k: int| 0 <= k < layout.nodes@.len() ==> spawned(
                final(scene)@,
                #[trigger] final(scene)@[s.root as int].children@[k] as int,
                layout.nodes@[k],
                *layout,
                assets@,
                assets@.len(),
                seq![root_segment()],
            )
            &&& forall|k: int| 0 <= k < s.apply_order@.len() ==>
                s.root < #[trigger] s.apply_order@[k] < final(scene)@.len()
            &&& s.apply_order@.len() == final(scene)@.len() - s.root - 1
            &&& forall|j: int| s.root < j < final(scene)@.len() ==> #[trigger] listed(s.apply_order@, 0, j)
            &&& forall|m: int| s.root <= m < final(scene)@.len() ==> #[trigger] children_block(s.apply_order@, final(scene)@, m)
        },
{
    let ghost start = scene.nodes@;
    let root = scene.nodes.len();
    let canvas = pixels(layout.canvas_size);
    let mut live = placeholder(None, root);
    live.id = String::from_str("__root");
    scene.nodes.push(live);
    assert(node_ok(scene.nodes@, root as int, scene.nodes@.len() as int));
    assert forall|i: int| 0 <= i < root implies #[trigger] node_ok(scene.nodes@, i, scene.nodes@.len() as int) by {
        assert(scene.nodes@[i] == start[i]);
        assert(node_ok(start, i, start.len() as int));
    };
    let mut order: Vec<usize> = Vec::new();
    let root_id = LayoutNodeId::root();
    let res = spawn_children(&mut scene.nodes, assets, layout, root, &root_id, &layout.nodes, assets.len(), &mut order);
    match res {
        Err(e) => {
            scene.nodes.truncate(root);
            assert(scene.nodes@ =~= start);
            Err(e)
        },
        Ok(kids) => {
            let ghost mid = scene.nodes@;
            let ghost kids_view = kids@;
            let end = scene.nodes.len();
            scene.nodes[root].kind = NodeKind::Layout;
            scene.nodes[root].node_id = root_id;
            scene.nodes[root].node = Node { anchor: Anchor::TopLeft, position: Vec2 { x: 0, y: 0 }, size: canvas, rotation: 0 };
            scene.nodes[root].children = kids;
            scene.nodes[root].subtree_end = end;
            scene.nodes[root].layout_info = Some(LayoutInfo::unscaled(canvas));
            scene.nodes[root].playback = Some(LayoutAnimationPlaybackState::new(copy_names(&layout.animations)));
            proof {
                assert forall|i: int| 0 <= i < scene.nodes@.len() implies
                    #[trigger] node_ok(scene.nodes@, i, scene.nodes@.len() as int) by {
                    if i != root {
                        assert(scene.nodes@[i] == mid[i]);
                        if i < root {
                            assert(node_ok(start, i, start.len() as int));
                        } else {
                            assert(node_ok(mid, i, mid.len() as int));
                        }
                    }
                };
                assert forall|i: int| 0 <= i < start.len() implies #[trigger] scene.nodes@[i] == start[i] by {
                    assert(scene.nodes@[i] == mid[i]);
                };
                assert forall|j: int| root + 1 <= j < mid.len() implies #[trigger] scene.nodes@[j] == mid[j] by {};
                assert(order@.subrange(0, order@.len() as int) =~= order@);
                assert forall|m: int| root < m < scene.nodes@.len() implies #[trigger] children_block(order@, scene.nodes@, m) by {
                    lemma_children_block_extended(order@, order@, mid, scene.nodes@, m);
                };
                let p = choose|p: int| #[trigger] block_at(order@, kids_view, mid.len() as int, root as int, p);
                assert(block_at(order@, scene.nodes@[root as int].children@, scene.nodes@[root as int].subtree_end as int, root as int, p));
                assert(children_block(order@, scene.nodes@, root as int));
                assert forall|k: int| 0 <= k < layout.nodes@.len() implies spawned(
                    scene.nodes@,
                    #[trigger] scene.nodes@[root as int].children@[k] as int,
                    layout.nodes@[k],
                    *layout,
                    assets@,
                    assets@.len(),
                    seq![root_segment()],
                ) by {
                    lemma_spawned_stable(mid, scene.nodes@, root + 1, kids_view[k] as int, layout.nodes@[k], *layout, assets@, assets@.len(), seq![root_segment()]);
                };
            }
            Ok(SpawnedLayout { root, apply_order: order })
        },
    }
}

} // verus!
