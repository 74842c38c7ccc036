//! What holds of every tree, and of the operations together.

use crate::builder::rebuilt;
use crate::mbr::{spec_hull, spec_intersects, Bounds};
use crate::model::{live_ids, DataView, TreeView};
use crate::node::RecordId;
use crate::tree::unordered;
use vstd::prelude::*;

verus! {

/// Coverage: in a well-formed tree the rectangle of every node is the common
/// rectangle of its children.
pub proof fn lemma_coverage(t: TreeView, i: int)
    requires
        t.wf(),
        0 <= i < t.nodes.len(),
    ensures
        t.nodes[i].mbr == spec_hull(t.child_mbrs(i)),
{
    let lv = choose|lv: Seq<nat>| t.wf_lv(lv);
    assert(t.node_ok(lv, i));
}

/// Fanout: in a tree within the fanout limits, every node but the root
/// holds between `min_records` and `max_records` children, and a root that
/// is no leaf holds at least 2.
pub proof fn lemma_fanout(t: TreeView, i: int)
    requires
        t.wf(),
        t.fanout_ok(),
        0 <= i < t.nodes.len(),
    ensures
        i != t.root.index() ==> t.min_records <= t.nodes[i].children.len() <= t.max_records,
        i == t.root.index() && t.root is Internal ==> t.nodes[i].children.len() >= 2,
        t.nodes[i].children.len() <= t.max_records,
{
    assert(t.fanout_ok_at(i));
}

/// Parent linkage: in a well-formed tree every child names the node that
/// holds it as its parent.
pub proof fn lemma_parent_linkage(t: TreeView, i: int, k: int)
    requires
        t.wf(),
        0 <= i < t.nodes.len(),
        0 <= k < t.nodes[i].children.len(),
    ensures
        t.resolves(t.nodes[i].children[k]),
        match t.nodes[i].children[k] {
            RecordId::Data(d) => t.data[d as int].parent == RecordId::Leaf(i as usize),
            RecordId::Leaf(c) => t.nodes[c as int].parent == RecordId::Internal(i as usize),
            RecordId::Internal(c) => t.nodes[c as int].parent == RecordId::Internal(i as usize),
            RecordId::Root => false,
        },
{
    let lv = choose|lv: Seq<nat>| t.wf_lv(lv);
    assert(t.node_ok(lv, i));
    assert(t.child_ok(lv, i, k));
}

/// Homogeneity: in a well-formed tree the children of a node are all data
/// nodes, or all leaves, or all internal nodes; and a node that holds data
/// nodes is named as a leaf, any other as an internal node.
pub proof fn lemma_homogeneity(t: TreeView, i: int, k1: int, k2: int)
    requires
        t.wf(),
        0 <= i < t.nodes.len(),
        0 <= k1 < t.nodes[i].children.len(),
        0 <= k2 < t.nodes[i].children.len(),
    ensures
        !(t.nodes[i].children[k1] is Root),
        t.nodes[i].children[k1] is Data <==> t.nodes[i].children[k2] is Data,
        t.nodes[i].children[k1] is Leaf <==> t.nodes[i].children[k2] is Leaf,
        t.nodes[i].children[k1] is Internal <==> t.nodes[i].children[k2] is Internal,
        t.nodes[i].children[k1] is Data ==> (i == t.root.index() ==> t.root is Leaf),
        !(t.nodes[i].children[k1] is Data) ==> (i == t.root.index() ==> t.root is Internal),
{
    let lv = choose|lv: Seq<nat>| t.wf_lv(lv);
    assert(t.node_ok(lv, i));
    assert(t.child_ok(lv, i, k1));
    assert(t.child_ok(lv, i, k2));
}

/// Search is sound and complete: where every live data node is in the
/// tree, what a search must return are the live data nodes whose
/// rectangles intersect the area, and no other.
pub proof fn lemma_search_exact(t: TreeView, area: Seq<Bounds>, d: usize)
    requires
        t.complete(),
    ensures
        t.found(area).contains(d) <==> t.is_live(d as int) && spec_intersects(
            t.data[d as int].mbr,
            area,
        ),
        t.found(area) == t.live_in(area),
{
    assert(t.found(area) =~= t.live_in(area));
}

/// What a search returns is live and intersects the area, in any tree.
pub proof fn lemma_search_sound(t: TreeView, area: Seq<Bounds>, d: usize)
    requires
        t.found(area).contains(d),
    ensures
        t.is_live(d as int),
        spec_intersects(t.data[d as int].mbr, area),
{
}

/// Search results depend on the live data alone, not on the shape of the
/// tree nor on the order in which the data came: where `pi` matches the
/// live data nodes of `a` one to one with those of `b`, rectangle by
/// rectangle, and both trees hold all their live data, a search of `b`
/// returns the matches of what the search of `a` returns.
pub proof fn lemma_search_ignores_order(
    a: TreeView,
    b: TreeView,
    pi: Map<usize, usize>,
    area: Seq<Bounds>,
)
    requires
        a.complete(),
        b.complete(),
        forall|d: usize|
            a.is_live(d as int) ==> pi.dom().contains(d) && b.is_live(#[trigger] pi[d] as int)
                && b.data[pi[d] as int].mbr == a.data[d as int].mbr,
        forall|e: usize|
            #[trigger] b.is_live(e as int) ==> exists|d: usize|
                a.is_live(d as int) && #[trigger] pi[d] == e,
    ensures
        forall|d: usize| a.found(area).contains(d) ==> b.found(area).contains(#[trigger] pi[d]),
        forall|e: usize|
            #[trigger] b.found(area).contains(e) ==> exists|d: usize|
                a.found(area).contains(d) && #[trigger] pi[d] == e,
{
    assert forall|d: usize| a.found(area).contains(d) implies b.found(area).contains(
        #[trigger] pi[d],
    ) by {
        assert(a.is_live(d as int));
        assert(b.is_live(pi[d] as int));
    }
    assert forall|e: usize| #[trigger] b.found(area).contains(e) implies exists|d: usize|
        a.found(area).contains(d) && #[trigger] pi[d] == e by {
        assert(b.is_live(e as int));
        let d = choose|d: usize| a.is_live(d as int) && #[trigger] pi[d] == e;
        assert(b.is_live(pi[d] as int));
        assert(a.found(area).contains(d));
    }
}

/// Rebuild equivalence: a rebuilt tree returns for every area the live
/// data nodes that intersect it; where the tree held all its live data
/// before, that is what it returned before.
pub proof fn lemma_rebuild_equivalence(before: TreeView, after: TreeView, area: Seq<Bounds>)
    requires
        before.live_num > 0 ==> rebuilt(before, after),
        before.live_num == 0 ==> after == before,
    ensures
        before.live_num > 0 ==> after.found(area) == before.live_in(area),
        before.complete() ==> after.found(area) == before.found(area),
{
    if before.live_num > 0 {
        assert forall|d: usize| after.found(area).contains(d) <==> before.live_in(area).contains(
            d,
        ) by {
            assert(after.attached(d as int) <==> after.is_live(d as int));
        }
        assert(after.found(area) =~= before.live_in(area));
        if before.complete() {
            assert(before.found(area) =~= before.live_in(area));
        }
    }
}

/// The data nodes that compaction makes of a tree: the live ones in their
/// order, none of them parked nor in the tree.
pub open spec fn compacted(before: TreeView, compact: TreeView) -> bool {
    &&& compact == TreeView::fresh(
        compact.data,
        before.dimension,
        before.min_records,
        before.max_records,
    )
    &&& compact.data.len() == live_ids(before.data).len()
    &&& forall|k: int|
        0 <= k < compact.data.len() ==> (#[trigger] compact.data[k]) == (DataView {
            parent: RecordId::Root,
            mbr: before.data[live_ids(before.data)[k].index()].mbr,
            removed: false,
        })
}

/// Soft delete and compaction: the tree over a compacted copy holds the
/// data nodes that were live, numbered anew in their order, and no other;
/// a search of it returns those of them that intersect the area.
pub proof fn lemma_compact_round_trip(
    before: TreeView,
    compact: TreeView,
    tree: TreeView,
    area: Seq<Bounds>,
    k: usize,
)
    requires
        before.data.len() <= usize::MAX,
        compacted(before, compact),
        unordered(compact) ==> rebuilt(compact, tree),
        !unordered(compact) ==> tree == compact,
    ensures
        tree.data.len() == live_ids(before.data).len(),
        tree.found(area).contains(k) <==> k < live_ids(before.data).len() && spec_intersects(
            before.data[live_ids(before.data)[k as int].index()].mbr,
            area,
        ),
        k < live_ids(before.data).len() ==> before.is_live(
            live_ids(before.data)[k as int].index(),
        ),
{
    crate::model::lemma_live_ids(before.data);
    crate::model::lemma_live_count_all(compact.data);
    if unordered(compact) {
        assert(tree.attached(k as int) <==> tree.is_live(k as int));
        if k < compact.data.len() {
            assert(tree.data[k as int].mbr == compact.data[k as int].mbr);
        }
    } else {
        assert(compact.live_num == compact.data.len());
        assert(compact.data.len() == 0);
    }
}

} // verus!
