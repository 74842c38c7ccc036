//! Search: the downward traversal that filters by rectangle, and the proof
//! that it returns exactly the live data in the tree that intersects.

use crate::mbr::{
    all_compatible, intersects, lemma_hull_holds, lemma_intersects_within,
    lemma_within_transitive, spec_intersects, within, Bounds, MBR,
};
use crate::model::{id_of, TreeView};
use crate::node::{NodeId, RecordId};
use crate::obj_space::ObjSpace;
use vstd::prelude::*;

verus! {

/// The node reached from node `j` by `n` parent links.
pub open spec fn ancestor(t: TreeView, j: int, n: nat) -> int
    decreases n,
{
    if n == 0 {
        j
    } else {
        t.nodes[ancestor(t, j, (n - 1) as nat)].parent.index()
    }
}

/// Data node `d` is in the tree, below node `i`.
pub open spec fn under(t: TreeView, lv: Seq<nat>, d: int, i: int) -> bool {
    t.attached(d) && ancestor(t, t.data[d].parent.index(), lv[i]) == i
}

/// What a search of the subtree of node `i` must return.
pub open spec fn found_under(t: TreeView, lv: Seq<nat>, i: int, area: Seq<Bounds>) -> Set<usize> {
    Set::new(
        |d: usize|
            t.is_live(d as int) && under(t, lv, d as int, i) && spec_intersects(
                t.data[d as int].mbr,
                area,
            ),
    )
}

/// The rectangles of the children of a node can be combined.
pub proof fn lemma_child_mbrs_compatible(t: TreeView, lv: Seq<nat>, i: int)
    requires
        t.wf_lv(lv),
        0 <= i < t.nodes.len(),
    ensures
        all_compatible(t.child_mbrs(i), t.dimension),
{
    let s = t.child_mbrs(i);
    assert forall|k: int| 0 <= k < s.len() implies (#[trigger] s[k]).len() == 0 || s[k].len()
        == t.dimension by {
        assert(t.node_ok(lv, i));
        assert(t.child_ok(lv, i, k));
        let c = t.nodes[i].children[k];
        if lv[i] == 0 {
            assert(t.data_ok(c.index()));
        } else {
            assert(t.node_ok(lv, c.index()));
        }
    }
}

/// The rectangle of a child lies inside the rectangle of its node.
pub proof fn lemma_child_within(t: TreeView, lv: Seq<nat>, i: int, k: int)
    requires
        t.wf_lv(lv),
        0 <= i < t.nodes.len(),
        0 <= k < t.nodes[i].children.len(),
    ensures
        within(t.rec_mbr(t.nodes[i].children[k]), t.nodes[i].mbr),
{
    lemma_child_mbrs_compatible(t, lv, i);
    lemma_hull_holds(t.child_mbrs(i), t.dimension, k);
    assert(t.node_ok(lv, i));
}

/// Climbing `n` parent links from a node, without passing the root's level,
/// leads to a node `n` levels above.
pub proof fn lemma_ancestor_level(t: TreeView, lv: Seq<nat>, j: int, n: nat)
    requires
        t.wf_lv(lv),
        0 <= j < t.nodes.len(),
        lv[j] + n <= lv[t.root.index()],
    ensures
        0 <= ancestor(t, j, n) < t.nodes.len(),
        lv[ancestor(t, j, n)] == lv[j] + n,
    decreases n,
{
    if n > 0 {
        lemma_ancestor_level(t, lv, j, (n - 1) as nat);
        let a = ancestor(t, j, (n - 1) as nat);
        assert(a != t.root.index());
        assert(t.up_ok(lv, a));
    }
}

/// Climbing from any node up to the root's level leads to the root.
pub proof fn lemma_ancestor_root(t: TreeView, lv: Seq<nat>, j: int)
    requires
        t.wf_lv(lv),
        0 <= j < t.nodes.len(),
    ensures
        lv[j] <= lv[t.root.index()],
        ancestor(t, j, (lv[t.root.index()] - lv[j]) as nat) == t.root.index(),
{
    assert(t.node_ok(lv, j));
    let n = (lv[t.root.index()] - lv[j]) as nat;
    lemma_ancestor_level(t, lv, j, n);
    let a = ancestor(t, j, n);
    if a != t.root.index() {
        assert(t.up_ok(lv, a));
        assert(t.node_ok(lv, t.nodes[a].parent.index()));
    }
}

/// The leaf that holds a data node is at level 0.
pub proof fn lemma_attached_leaf(t: TreeView, lv: Seq<nat>, d: int)
    requires
        t.wf_lv(lv),
        t.attached(d),
    ensures
        lv[t.data[d].parent.index()] == 0,
{
    let l = t.data[d].parent.index();
    let c = RecordId::Data(d as usize);
    let k = choose|k: int| 0 <= k < t.nodes[l].children.len() && t.nodes[l].children[k] == c;
    assert(t.node_ok(lv, l));
    assert(t.child_ok(lv, l, k));
}

/// A data node below a node lies inside that node's rectangle.
pub proof fn lemma_under_within(t: TreeView, lv: Seq<nat>, d: int, i: int)
    requires
        t.wf_lv(lv),
        0 <= i < t.nodes.len(),
        under(t, lv, d, i),
    ensures
        within(t.data[d].mbr, t.nodes[i].mbr),
    decreases lv[i],
{
    let l = t.data[d].parent.index();
    lemma_attached_leaf(t, lv, d);
    assert(t.node_ok(lv, i));
    if lv[i] == 0 {
        let c = RecordId::Data(d as usize);
        let k = choose|k: int| 0 <= k < t.nodes[l].children.len() && t.nodes[l].children[k] == c;
        lemma_child_within(t, lv, i, k);
    } else {
        let n = (lv[i] - 1) as nat;
        lemma_ancestor_level(t, lv, l, n);
        let j = ancestor(t, l, n);
        assert(j != t.root.index());
        assert(t.up_ok(lv, j));
        let k = choose|k: int|
            0 <= k < t.nodes[i].children.len() && t.nodes[i].children[k] == id_of(lv, j);
        lemma_child_within(t, lv, i, k);
        lemma_under_within(t, lv, d, j);
        lemma_within_transitive(t.data[d].mbr, t.nodes[j].mbr, t.nodes[i].mbr);
    }
}

/// In a leaf, the data below it are its children.
pub proof fn lemma_under_leaf(t: TreeView, lv: Seq<nat>, d: int, i: int)
    requires
        t.wf_lv(lv),
        0 <= i < t.nodes.len(),
        lv[i] == 0,
    ensures
        under(t, lv, d, i) <==> (0 <= d < t.data.len() && d <= usize::MAX
            && t.nodes[i].children.contains(RecordId::Data(d as usize))),
{
    let c = RecordId::Data(d as usize);
    if 0 <= d < t.data.len() && d <= usize::MAX && t.nodes[i].children.contains(c) {
        let k = choose|k: int| 0 <= k < t.nodes[i].children.len() && t.nodes[i].children[k] == c;
        assert(t.node_ok(lv, i));
        assert(t.child_ok(lv, i, k));
    }
}

/// Below an internal node lie the data below its children, and no other.
pub proof fn lemma_under_internal(t: TreeView, lv: Seq<nat>, d: int, i: int)
    requires
        t.wf_lv(lv),
        0 <= i < t.nodes.len(),
        lv[i] > 0,
    ensures
        under(t, lv, d, i) <==> exists|k: int|
            0 <= k < t.nodes[i].children.len() && under(
                t,
                lv,
                d,
                (#[trigger] t.nodes[i].children[k]).index(),
            ),
{
    assert(t.node_ok(lv, i));
    if under(t, lv, d, i) {
        let l = t.data[d].parent.index();
        lemma_attached_leaf(t, lv, d);
        let n = (lv[i] - 1) as nat;
        lemma_ancestor_level(t, lv, l, n);
        let j = ancestor(t, l, n);
        assert(j != t.root.index());
        assert(t.up_ok(lv, j));
        let k = choose|k: int|
            0 <= k < t.nodes[i].children.len() && t.nodes[i].children[k] == id_of(lv, j);
        assert(t.nodes[i].children[k].index() == j);
        assert(under(t, lv, d, j));
    }
    if exists|k: int|
        0 <= k < t.nodes[i].children.len() && under(
            t,
            lv,
            d,
            (#[trigger] t.nodes[i].children[k]).index(),
        ) {
        let k = choose|k: int|
            0 <= k < t.nodes[i].children.len() && under(
                t,
                lv,
                d,
                (#[trigger] t.nodes[i].children[k]).index(),
            );
        assert(t.child_ok(lv, i, k));
        let j = t.nodes[i].children[k].index();
        assert(lv[i] == lv[j] + 1);
        assert(ancestor(t, t.data[d].parent.index(), lv[i]) == t.nodes[ancestor(
            t,
            t.data[d].parent.index(),
            lv[j],
        )].parent.index());
    }
}

/// Below the root lies every data node of the tree.
pub proof fn lemma_under_root(t: TreeView, lv: Seq<nat>, d: int)
    requires
        t.wf_lv(lv),
    ensures
        under(t, lv, d, t.root.index()) <==> t.attached(d),
{
    if t.attached(d) {
        lemma_attached_leaf(t, lv, d);
        lemma_ancestor_root(t, lv, t.data[d].parent.index());
    }
}

/// Search below the root is search of the tree.
pub proof fn lemma_found_under_root(t: TreeView, lv: Seq<nat>, area: Seq<Bounds>)
    requires
        t.wf_lv(lv),
    ensures
        found_under(t, lv, t.root.index(), area) == t.found(area),
{
    assert forall|d: usize|
        found_under(t, lv, t.root.index(), area).contains(d) == t.found(area).contains(d) by {
        lemma_under_root(t, lv, d as int);
    }
    assert(found_under(t, lv, t.root.index(), area) =~= t.found(area));
}

/// Appends to `out` the live data below `node_id` that intersects `area`.
pub fn search_helper<ObjectT>(
    obj_space: &ObjSpace<ObjectT>,
    Ghost(lv): Ghost<Seq<nat>>,
    node_id: RecordId,
    area: &MBR,
    out: &mut Vec<NodeId>,
)
    requires
        obj_space@.wf_lv(lv),
        node_id.is_node(),
        node_id.index() < obj_space@.nodes.len(),
        node_id == id_of(lv, node_id.index()),
        area@.len() == 0 || area@.len() == obj_space@.dimension,
        old(out)@.no_duplicates(),
        forall|d: usize|
            old(out)@.contains(d) ==> !under(obj_space@, lv, d as int, node_id.index()),
    ensures
        forall|d: usize|
            final(out)@.contains(d) <==> old(out)@.contains(d) || found_under(
                obj_space@,
                lv,
                node_id.index(),
                area@,
            ).contains(d),
        final(out)@.no_duplicates(),
    decreases lv[node_id.index()],
{
    let ghost t = obj_space@;
    let ghost i = node_id.index();
    let node = obj_space.get_node(node_id);
    let n = node.payload.len();
    let mut k: usize = 0;
    proof {
        assert(t.node_ok(lv, i));
    }
    match node_id {
        RecordId::Leaf(_) => {
            while k < n
                invariant
                    k <= n,
                    t == obj_space@,
                    t.wf_lv(lv),
                    0 <= i < t.nodes.len(),
                    lv[i] == 0,
                    node_view_children(*node) == t.nodes[i].children,
                    n == t.nodes[i].children.len(),
                    area@.len() == 0 || area@.len() == t.dimension,
                    forall|d: usize|
                        out@.contains(d) <==> old(out)@.contains(d) || exists|k1: int|
                            0 <= k1 < k && leaf_hit(t, i, k1, d, area@),
                    out@.no_duplicates(),
                    forall|d: usize| old(out)@.contains(d) ==> !under(t, lv, d as int, i),
                decreases n - k,
            {
                let child_id = node.payload[k];
                proof {
                    assert(t.node_ok(lv, i));
                    assert(t.child_ok(lv, i, k as int));
                    assert(t.data_ok(child_id.index()));
                }
                let d = child_id.as_node_id();
                let hit = !obj_space.is_removed(d) && intersects(obj_space.get_mbr(child_id), area);
                let ghost before = out@;
                proof {
                    if before.contains(d) {
                        lemma_under_leaf(t, lv, d as int, i);
                        assert(t.nodes[i].children[k as int] == RecordId::Data(d));
                        if old(out)@.contains(d) {
                            assert(false);
                        }
                        let k1 = choose|k1: int| 0 <= k1 < k && leaf_hit(t, i, k1, d, area@);
                        assert(t.nodes[i].children[k1] == t.nodes[i].children[k as int]);
                        assert(false);
                    }
                }
                if hit {
                    out.push(d);
                }
                proof {
                    if hit {
                        assert(out@.no_duplicates()) by {
                            assert forall|x: int, y: int|
                                0 <= x < out@.len() && 0 <= y < out@.len() && x != y implies out@[x]
                                != out@[y] by {
                                if x < before.len() && y < before.len() {
                                    assert(before[x] != before[y]);
                                } else if x < before.len() {
                                    assert(before.contains(before[x]));
                                } else {
                                    assert(before.contains(before[y]));
                                }
                            }
                        }
                    }
                    assert(hit == leaf_hit(t, i, k as int, d, area@));
                    assert forall|e: usize|
                        out@.contains(e) <==> old(out)@.contains(e) || exists|k1: int|
                            0 <= k1 < k + 1 && leaf_hit(t, i, k1, e, area@) by {
                        if hit {
                            assert(out@ == before.push(d));
                            assert(out@[before.len() as int] == d);
                            if before.contains(e) {
                                let x = choose|x: int| 0 <= x < before.len() && before[x] == e;
                                assert(out@[x] == e);
                            }
                        }
                        if exists|k1: int| 0 <= k1 < k + 1 && leaf_hit(t, i, k1, e, area@) {
                            let k1 = choose|k1: int|
                                0 <= k1 < k + 1 && leaf_hit(t, i, k1, e, area@);
                            if k1 < k {
                                assert(before.contains(e));
                            } else {
                                assert(e == d);
                            }
                        }
                    }
                }
                k += 1;
            }
            proof {
                assert forall|d: usize|
                    out@.contains(d) <==> old(out)@.contains(d) || found_under(
                        t,
                        lv,
                        i,
                        area@,
                    ).contains(d) by {
                    lemma_under_leaf(t, lv, d as int, i);
                    if found_under(t, lv, i, area@).contains(d) {
                        let c = RecordId::Data(d);
                        let k1 = choose|k1: int|
                            0 <= k1 < t.nodes[i].children.len() && t.nodes[i].children[k1] == c;
                        assert(leaf_hit(t, i, k1, d, area@));
                    }
                    if exists|k1: int| 0 <= k1 < n && leaf_hit(t, i, k1, d, area@) {
                        let k1 = choose|k1: int| 0 <= k1 < n && leaf_hit(t, i, k1, d, area@);
                        assert(t.nodes[i].children[k1] == RecordId::Data(d));
                    }
                }
            }
        },
        _ => {
            while k < n
                invariant
                    k <= n,
                    t == obj_space@,
                    t.wf_lv(lv),
                    0 <= i < t.nodes.len(),
                    lv[i] > 0,
                    lv[i] == lv[node_id.index()],
                    node_view_children(*node) == t.nodes[i].children,
                    n == t.nodes[i].children.len(),
                    area@.len() == 0 || area@.len() == t.dimension,
                    forall|d: usize|
                        out@.contains(d) <==> old(out)@.contains(d) || exists|k1: int|
                            0 <= k1 < k && node_hit(t, lv, i, k1, d, area@),
                    out@.no_duplicates(),
                    forall|d: usize| old(out)@.contains(d) ==> !under(t, lv, d as int, i),
                decreases n - k,
            {
                let child_id = node.payload[k];
                proof {
                    assert(t.node_ok(lv, i));
                    assert(t.child_ok(lv, i, k as int));
                    assert(t.node_ok(lv, child_id.index()));
                }
                let ghost before = out@;
                let ghost j = child_id.index();
                proof {
                    assert forall|d: usize| before.contains(d) implies !under(
                        t,
                        lv,
                        d as int,
                        j,
                    ) by {
                        if under(t, lv, d as int, j) {
                            lemma_under_internal(t, lv, d as int, i);
                            assert(under(t, lv, d as int, t.nodes[i].children[k as int].index()));
                            assert(under(t, lv, d as int, i));
                            let k1 = choose|k1: int|
                                0 <= k1 < k && node_hit(t, lv, i, k1, d, area@);
                            assert(t.child_ok(lv, i, k1));
                            let j1 = t.nodes[i].children[k1].index();
                            assert(under(t, lv, d as int, j1));
                            assert(lv[j1] == lv[j]);
                            assert(j1 == j);
                            assert(t.nodes[i].children[k1] == t.nodes[i].children[k as int]);
                        }
                    }
                }
                let go = intersects(obj_space.get_mbr(child_id), area);
                if go {
                    search_helper(obj_space, Ghost(lv), child_id, area, out);
                }
                proof {
                    assert forall|e: usize|
                        out@.contains(e) <==> old(out)@.contains(e) || exists|k1: int|
                            0 <= k1 < k + 1 && node_hit(t, lv, i, k1, e, area@) by {
                        if !go && found_under(t, lv, j, area@).contains(e) {
                            lemma_under_within(t, lv, e as int, j);
                            assert(t.data_ok(e as int));
                            lemma_intersects_within(t.data[e as int].mbr, t.nodes[j].mbr, area@);
                        }
                        if out@.contains(e) && !before.contains(e) {
                            assert(node_hit(t, lv, i, k as int, e, area@));
                        }
                        if exists|k1: int| 0 <= k1 < k + 1 && node_hit(t, lv, i, k1, e, area@) {
                            let k1 = choose|k1: int|
                                0 <= k1 < k + 1 && node_hit(t, lv, i, k1, e, area@);
                            if k1 < k {
                                assert(before.contains(e));
                            }
                        }
                    }
                }
                k += 1;
            }
            proof {
                assert forall|d: usize|
                    out@.contains(d) <==> old(out)@.contains(d) || found_under(
                        t,
                        lv,
                        i,
                        area@,
                    ).contains(d) by {
                    lemma_under_internal(t, lv, d as int, i);
                    if found_under(t, lv, i, area@).contains(d) {
                        let k1 = choose|k1: int|
                            0 <= k1 < t.nodes[i].children.len() && under(
                                t,
                                lv,
                                d as int,
                                (#[trigger] t.nodes[i].children[k1]).index(),
                            );
                        assert(node_hit(t, lv, i, k1, d, area@));
                    }
                    if exists|k1: int| 0 <= k1 < n && node_hit(t, lv, i, k1, d, area@) {
                        let k1 = choose|k1: int| 0 <= k1 < n && node_hit(t, lv, i, k1, d, area@);
                        assert(under(t, lv, d as int, t.nodes[i].children[k1].index()));
                    }
                }
            }
        },
    }
}

/// Child `k` of leaf `i` is the live data node `d`, and it intersects `area`.
pub open spec fn leaf_hit(t: TreeView, i: int, k: int, d: usize, area: Seq<Bounds>) -> bool {
    &&& t.nodes[i].children[k] == RecordId::Data(d)
    &&& t.is_live(d as int)
    &&& spec_intersects(t.data[d as int].mbr, area)
}

/// A search below child `k` of node `i` must return `d`.
pub open spec fn node_hit(
    t: TreeView,
    lv: Seq<nat>,
    i: int,
    k: int,
    d: usize,
    area: Seq<Bounds>,
) -> bool {
    found_under(t, lv, t.nodes[i].children[k].index(), area).contains(d)
}

/// The children of a node, as the model has them.
pub open spec fn node_view_children(n: crate::node::InternalNode) -> Seq<RecordId> {
    n.payload@
}

/// The live data in the tree of `obj_space` that intersects `area`, in the
/// order in which the traversal meets it.
pub fn search_obj_space<ObjectT>(obj_space: &ObjSpace<ObjectT>, area: &MBR) -> (r: Vec<NodeId>)
    requires
        obj_space@.wf(),
        area@.len() == 0 || area@.len() == obj_space@.dimension,
    ensures
        r@.to_set() == obj_space@.found(area@),
        r@.no_duplicates(),
{
    let ghost lv = choose|lv: Seq<nat>| obj_space@.wf_lv(lv);
    let mut out: Vec<NodeId> = Vec::new();
    let root_id = obj_space.root_id;
    search_helper(obj_space, Ghost(lv), root_id, area, &mut out);
    proof {
        lemma_found_under_root(obj_space@, lv, area@);
        assert(out@.to_set() =~= obj_space@.found(area@));
    }
    out
}

} // verus!
