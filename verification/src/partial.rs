//! The states that the static build passes through, and the proofs that
//! each of its steps leads from one to the next.

use crate::fixup::{mbrs_of, reparent};
use crate::mbr::{box_ordered, lemma_hull_least, lemma_hull_shape, spec_hull, within, Bounds};
use crate::model::{id_of, lemma_base_kept, NodeView, TreeView};
use crate::node::RecordId;
use vstd::prelude::*;

verus! {

/// What holds of every node while the tree is being built: its children are
/// linked with it, none occurs twice, and its rectangle is in order and
/// inside `bound`.
pub open spec fn frame_ok(t: TreeView, lv: Seq<nat>, j: int, bound: Seq<Bounds>) -> bool {
    &&& t.children_ok(lv, j)
    &&& t.distinct_children(j)
    &&& (t.nodes[j].mbr.len() == 0 || t.nodes[j].mbr.len() == t.dimension)
    &&& box_ordered(t.nodes[j].mbr)
    &&& within(t.nodes[j].mbr, bound)
    &&& lv[j] <= lv[t.root.index()]
}

/// What holds of a node once all its children are in place.
pub open spec fn closed_ok(t: TreeView, lv: Seq<nat>, j: int) -> bool {
    &&& t.cover_ok(j)
    &&& t.populated(lv, j)
    &&& t.nodes[j].children.len() >= 1 ==> t.nodes[j].mbr.len() == t.dimension
}

/// The tree is well formed but for the nodes in `pending`, whose children
/// are not all in place yet.
pub open spec fn partial_ok(t: TreeView, lv: Seq<nat>, pending: Set<int>, bound: Seq<Bounds>) -> bool {
    &&& t.base_ok()
    &&& lv.len() == t.nodes.len()
    &&& t.root_ok(lv)
    &&& bound.len() == t.dimension
    &&& forall|j: int| 0 <= j < t.nodes.len() ==> frame_ok(t, lv, j, bound)
    &&& forall|j: int| 0 <= j < t.nodes.len() && j != t.root.index() ==> t.up_ok(lv, j)
    &&& forall|j: int|
        0 <= j < t.nodes.len() && !pending.contains(j) ==> #[trigger] closed_ok(t, lv, j)
}

/// A node whose children are all in place need not be pending.
pub proof fn lemma_partial_close(
    t: TreeView,
    lv: Seq<nat>,
    pending: Set<int>,
    bound: Seq<Bounds>,
    c: int,
)
    requires
        partial_ok(t, lv, pending, bound),
        closed_ok(t, lv, c),
    ensures
        partial_ok(t, lv, pending.remove(c), bound),
{
    assert forall|j: int| 0 <= j < t.nodes.len() && !pending.remove(c).contains(
        j,
    ) implies closed_ok(t, lv, j) by {
        if j != c {
            assert(!pending.contains(j));
        }
    }
}

/// The identifier of a child created under node `i`.
pub open spec fn child_id(t: TreeView, lv: Seq<nat>, i: int) -> RecordId {
    if lv[i] == 1 {
        RecordId::Leaf(t.nodes.len() as usize)
    } else {
        RecordId::Internal(t.nodes.len() as usize)
    }
}

/// The tree with a new, empty child of node `i` that has the rectangle `m`.
pub open spec fn with_child(t: TreeView, lv: Seq<nat>, i: int, m: Seq<Bounds>) -> TreeView {
    t.push_node(NodeView { parent: RecordId::Root, mbr: m, children: Seq::empty() }).push_child(
        i,
        child_id(t, lv, i),
    ).set_node_parent(t.nodes.len() as int, id_of(lv, i))
}

/// A new, empty child under a pending node: the child is pending too.
pub proof fn lemma_partial_child(
    t: TreeView,
    lv: Seq<nat>,
    pending: Set<int>,
    bound: Seq<Bounds>,
    i: int,
    m: Seq<Bounds>,
)
    requires
        partial_ok(t, lv, pending, bound),
        0 <= i < t.nodes.len(),
        pending.contains(i),
        lv[i] >= 1,
        t.nodes.len() < usize::MAX,
        m.len() == t.dimension,
        box_ordered(m),
        within(m, bound),
    ensures
        partial_ok(
            with_child(t, lv, i, m),
            lv.push((lv[i] - 1) as nat),
            pending.insert(t.nodes.len() as int),
            bound,
        ),
        forall|d: int| with_child(t, lv, i, m).attached(d) <==> t.attached(d),
{
    let c = t.nodes.len() as int;
    let cid = child_id(t, lv, i);
    let t2 = with_child(t, lv, i, m);
    let lv2 = lv.push((lv[i] - 1) as nat);
    let wider = pending.insert(c);
    assert(frame_ok(t, lv, i, bound));
    lemma_base_kept(t, t2);
    assert forall|j: int| 0 <= j < c implies id_of(lv2, j) == id_of(lv, j) by {}
    assert(t2.nodes[c].children =~= Seq::<RecordId>::empty());
    assert forall|j: int| 0 <= j < t2.nodes.len() implies frame_ok(t2, lv2, j, bound) by {
        if j < c {
            assert(frame_ok(t, lv, j, bound));
            assert forall|k: int| 0 <= k < t2.nodes[j].children.len() implies t2.child_ok(
                lv2,
                j,
                k,
            ) by {
                if j == i && k == t.nodes[i].children.len() {
                } else {
                    assert(t.child_ok(lv, j, k));
                }
            }
            if j == i {
                assert forall|k: int| 0 <= k < t.nodes[i].children.len() implies t.nodes[i].children[k]
                    != cid by {
                    assert(t.child_ok(lv, i, k));
                }
            }
        }
    }
    assert forall|j: int| 0 <= j < t2.nodes.len() && j != t2.root.index() implies t2.up_ok(
        lv2,
        j,
    ) by {
        if j == c {
            assert(t2.nodes[i].children[t.nodes[i].children.len() as int] == cid);
        } else {
            assert(t.up_ok(lv, j));
            let q = t.nodes[j].parent.index();
            let k = choose|k: int|
                0 <= k < t.nodes[q].children.len() && t.nodes[q].children[k] == id_of(lv, j);
            assert(t2.nodes[q].children[k] == id_of(lv2, j));
        }
    }
    assert forall|j: int| 0 <= j < t2.nodes.len() && !wider.contains(j) implies closed_ok(
        t2,
        lv2,
        j,
    ) by {
        assert(!pending.contains(j));
        assert(closed_ok(t, lv, j));
        assert(frame_ok(t, lv, j, bound));
        assert(t2.child_mbrs(j) =~= t.child_mbrs(j)) by {
            assert forall|k: int| 0 <= k < t.nodes[j].children.len() implies t2.child_mbrs(j)[k]
                == t.child_mbrs(j)[k] by {
                assert(t.child_ok(lv, j, k));
            }
        }
    }
    assert forall|d: int| t2.attached(d) <==> t.attached(d) by {
        if t.attached(d) {
            let q = t.data[d].parent.index();
            let y = RecordId::Data(d as usize);
            let k = choose|k: int| 0 <= k < t.nodes[q].children.len() && t.nodes[q].children[k] == y;
            assert(t2.nodes[q].children[k] == y);
        }
        if t2.attached(d) {
            let q = t2.data[d].parent.index();
            let y = RecordId::Data(d as usize);
            let k = choose|k: int|
                0 <= k < t2.nodes[q].children.len() && t2.nodes[q].children[k] == y;
            if q == i {
                assert(k < t.nodes[i].children.len());
            }
            assert(t.nodes[q].children[k] == y);
        }
    }
}

/// The data nodes that `ids` names exist, and none is named twice.
pub open spec fn data_ids_ok(t: TreeView, ids: Seq<RecordId>, bound: Seq<Bounds>) -> bool {
    &&& ids.no_duplicates()
    &&& forall|k: int|
        0 <= k < ids.len() ==> (#[trigger] ids[k]) is Data && ids[k].index() < t.data.len()
            && within(t.data[ids[k].index()].mbr, bound)
}

/// The tree with `g` as the children of leaf `i`, each naming `i` as its
/// parent.
pub open spec fn with_leaf(t: TreeView, i: int, g: Seq<RecordId>) -> TreeView {
    reparent(t.set_children(i, g), g, RecordId::Leaf(i as usize))
}

/// A pending leaf takes data nodes that no leaf holds yet.
pub proof fn lemma_partial_leaf(
    t: TreeView,
    lv: Seq<nat>,
    pending: Set<int>,
    bound: Seq<Bounds>,
    i: int,
    g: Seq<RecordId>,
)
    requires
        partial_ok(t, lv, pending, bound),
        0 <= i < t.nodes.len(),
        pending.contains(i),
        lv[i] == 0,
        t.nodes[i].children.len() == 0,
        data_ids_ok(t, g, bound),
        forall|k: int| 0 <= k < g.len() ==> !t.attached((#[trigger] g[k]).index()),
    ensures
        partial_ok(with_leaf(t, i, g), lv, pending, bound),
        with_leaf(t, i, g).child_mbrs(i) == mbrs_of(t, g),
        with_leaf(t, i, g).same_data(t),
        forall|d: int|
            with_leaf(t, i, g).attached(d) <==> t.attached(d) || (0 <= d < t.data.len()
                && g.contains(RecordId::Data(d as usize))),
        forall|j: int|
            0 <= j < t.nodes.len() && j != i ==> #[trigger] with_leaf(t, i, g).nodes[j]
                == t.nodes[j],
        with_leaf(t, i, g).nodes.len() == t.nodes.len(),
        with_leaf(t, i, g).nodes[i].mbr == t.nodes[i].mbr,
        with_leaf(t, i, g).nodes[i].parent == t.nodes[i].parent,
        with_leaf(t, i, g).nodes[i].children == g,
        with_leaf(t, i, g).root == t.root,
{
    let t2 = with_leaf(t, i, g);
    let pid = RecordId::Leaf(i as usize);
    assert forall|j: int| 0 <= j < t.nodes.len() implies !crate::fixup::named(g, j) by {
        if g.contains(RecordId::Leaf(j as usize)) {
            let k = choose|k: int| 0 <= k < g.len() && g[k] == RecordId::Leaf(j as usize);
            assert(g[k] is Data);
        }
        if g.contains(RecordId::Internal(j as usize)) {
            let k = choose|k: int| 0 <= k < g.len() && g[k] == RecordId::Internal(j as usize);
            assert(g[k] is Data);
        }
    }
    assert forall|j: int| 0 <= j < t.nodes.len() && j != i implies #[trigger] t2.nodes[j]
        == t.nodes[j] by {}
    assert(t2.nodes[i].children == g);
    lemma_base_kept(t, t2);
    // a data node held by another leaf is not in `g`
    assert forall|j: int, k: int|
        0 <= j < t.nodes.len() && 0 <= k < t.nodes[j].children.len() && lv[j] == 0 implies !g.contains(
        #[trigger] t.nodes[j].children[k],
    ) by {
        let y = t.nodes[j].children[k];
        assert(frame_ok(t, lv, j, bound));
        assert(t.child_ok(lv, j, k));
        if g.contains(y) {
            let k2 = choose|k2: int| 0 <= k2 < g.len() && g[k2] == y;
            assert(t.attached(g[k2].index()));
        }
    }
    assert forall|j: int| 0 <= j < t2.nodes.len() implies frame_ok(t2, lv, j, bound) by {
        assert(frame_ok(t, lv, j, bound));
        if j == i {
            assert forall|k: int| 0 <= k < g.len() implies t2.child_ok(lv, i, k) by {
                assert(g.contains(g[k]));
            }
        } else {
            assert forall|k: int| 0 <= k < t2.nodes[j].children.len() implies t2.child_ok(
                lv,
                j,
                k,
            ) by {
                assert(t.child_ok(lv, j, k));
                if lv[j] == 0 {
                    assert(!g.contains(t.nodes[j].children[k]));
                }
            }
        }
    }
    assert forall|j: int| 0 <= j < t2.nodes.len() && j != t2.root.index() implies t2.up_ok(
        lv,
        j,
    ) by {
        assert(t.up_ok(lv, j));
    }
    assert(t2.child_mbrs(i) =~= mbrs_of(t, g));
    assert forall|j: int| 0 <= j < t2.nodes.len() && !pending.contains(j) implies closed_ok(
        t2,
        lv,
        j,
    ) by {
        assert(closed_ok(t, lv, j));
        assert(frame_ok(t, lv, j, bound));
        assert(t2.child_mbrs(j) =~= t.child_mbrs(j)) by {
            assert forall|k: int| 0 <= k < t.nodes[j].children.len() implies t2.child_mbrs(j)[k]
                == t.child_mbrs(j)[k] by {
                assert(t.child_ok(lv, j, k));
            }
        }
    }
    assert forall|d: int|
        t2.attached(d) <==> t.attached(d) || (0 <= d < t.data.len() && g.contains(
            RecordId::Data(d as usize),
        )) by {
        let y = RecordId::Data(d as usize);
        if t.attached(d) {
            let q = t.data[d].parent.index();
            let k = choose|k: int| 0 <= k < t.nodes[q].children.len() && t.nodes[q].children[k] == y;
            assert(q != i);
            assert(frame_ok(t, lv, q, bound));
            assert(t.child_ok(lv, q, k));
            assert(!g.contains(t.nodes[q].children[k]));
            assert(t2.nodes[q].children[k] == y);
        }
        if 0 <= d < t.data.len() && g.contains(y) {
            assert(t2.data[d].parent == pid);
        }
        if t2.attached(d) && !(0 <= d < t.data.len() && g.contains(y)) {
            let q = t2.data[d].parent.index();
            let k = choose|k: int|
                0 <= k < t2.nodes[q].children.len() && t2.nodes[q].children[k] == y;
            if q == i {
                assert(g[k] == y);
            }
            assert(t.nodes[q].children[k] == y);
        }
    }
}

/// The root, which was pending, gets the common rectangle of its children:
/// the tree is well formed.
pub proof fn lemma_partial_root(t: TreeView, lv: Seq<nat>, bound: Seq<Bounds>)
    requires
        partial_ok(t, lv, Set::empty().insert(t.root.index()), bound),
        t.nodes[t.root.index()].children.len() >= 1,
        forall|k: int|
            0 <= k < t.nodes[t.root.index()].children.len() ==> within(
                t.rec_mbr(#[trigger] t.nodes[t.root.index()].children[k]),
                bound,
            ),
    ensures
        t.set_node_mbr(t.root.index(), spec_hull(t.child_mbrs(t.root.index()))).wf_lv(lv),
        forall|d: int|
            t.set_node_mbr(t.root.index(), spec_hull(t.child_mbrs(t.root.index()))).attached(d)
                <==> t.attached(d),
{
    let r = t.root.index();
    let h = spec_hull(t.child_mbrs(r));
    let t2 = t.set_node_mbr(r, h);
    assert(frame_ok(t, lv, r, bound));
    lemma_base_kept(t, t2);
    // the children of the root
    let s = t.child_mbrs(r);
    assert forall|k: int| 0 <= k < s.len() implies ((#[trigger] s[k]).len() == t.dimension)
        && box_ordered(s[k]) && within(s[k], bound) by {
        assert(t.child_ok(lv, r, k));
        let c = t.nodes[r].children[k];
        assert(within(t.rec_mbr(c), bound));
        if lv[r] == 0 {
            assert(t.data_ok(c.index()));
        } else {
            assert(frame_ok(t, lv, c.index(), bound));
            assert(c.index() != r);
            assert(t.up_ok(lv, c.index()));
            assert(closed_ok(t, lv, c.index()));
        }
    }
    lemma_hull_shape(s, t.dimension);
    lemma_hull_least(s, t.dimension, bound);
    assert(s[0].len() == t.dimension);
    assert forall|j: int| 0 <= j < t2.nodes.len() implies t2.node_ok(lv, j) by {
        assert(frame_ok(t, lv, j, bound));
        assert forall|k: int| 0 <= k < t2.nodes[j].children.len() implies t2.child_ok(
            lv,
            j,
            k,
        ) by {
            assert(t.child_ok(lv, j, k));
        }
        assert(t2.child_mbrs(j) =~= t.child_mbrs(j)) by {
            assert forall|k: int| 0 <= k < t.nodes[j].children.len() implies t2.child_mbrs(j)[k]
                == t.child_mbrs(j)[k] by {
                assert(t.child_ok(lv, j, k));
            }
        }
        if j != r {
            assert(closed_ok(t, lv, j));
        }
    }
    assert forall|j: int| 0 <= j < t2.nodes.len() && j != t2.root.index() implies t2.up_ok(
        lv,
        j,
    ) by {
        assert(t.up_ok(lv, j));
    }
    assert forall|d: int| t2.attached(d) <==> t.attached(d) by {}
}

} // verus!
