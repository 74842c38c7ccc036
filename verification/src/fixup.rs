//! The states that an insertion passes through between two well-formed
//! trees, and the proofs that each of its steps leads from one to the next.

use crate::mbr::{
    all_compatible, box_ordered, lemma_common_holds, lemma_common_least, lemma_hull_holds,
    lemma_hull_least, lemma_hull_patch, lemma_hull_push, lemma_hull_shape, lemma_within_transitive,
    spec_common, spec_hull, within, Bounds,
};
use crate::model::{id_of, lemma_base_kept, NodeView, TreeView};
use crate::node::RecordId;
use vstd::prelude::*;

verus! {

/// Rectangles of the children of node `i`, with `m` in place of the
/// rectangle of child `x`.
pub open spec fn child_mbrs_with(t: TreeView, i: int, x: RecordId, m: Seq<Bounds>) -> Seq<
    Seq<Bounds>,
> {
    Seq::new(
        t.nodes[i].children.len(),
        |k: int|
            if t.nodes[i].children[k] == x {
                m
            } else {
                t.rec_mbr(t.nodes[i].children[k])
            },
    )
}

/// What holds of every node while the tree is being mended: all that
/// well-formedness asks of it but its rectangle's exactness and its link
/// upward, and that its rectangle lies inside `bound`.
pub open spec fn local_ok(t: TreeView, lv: Seq<nat>, i: int, bound: Seq<Bounds>) -> bool {
    &&& t.children_ok(lv, i)
    &&& t.distinct_children(i)
    &&& t.shape_ok(i)
    &&& t.populated(lv, i)
    &&& lv[i] <= lv[t.root.index()]
    &&& within(t.nodes[i].mbr, bound)
}

/// Where the mending stands.
pub struct Fix {
    /// The node whose parent is to be mended next.
    pub c: int,
    /// A sibling of `c` that no node holds yet.
    pub e: Option<int>,
    /// The rectangle of `c` that the rectangle of its parent was made from.
    pub believed: Seq<Bounds>,
    /// The rectangle of the data node being inserted.
    pub added: Seq<Bounds>,
    /// A rectangle that holds the whole tree and `added`.
    pub bound: Seq<Bounds>,
    /// Whether the fanout limits held before the insertion.
    pub fan: bool,
    /// Data nodes that are in the tree and stay there.
    pub keep: Set<int>,
}

/// Rectangle of the pending sibling, undefined if there is none.
pub open spec fn pending_mbr(t: TreeView, e: Option<int>) -> Seq<Bounds> {
    match e {
        Some(e) => t.nodes[e].mbr,
        None => Seq::empty(),
    }
}

/// The pending sibling, if there is one, is a node of the level of `f.c` that
/// no node holds, and `f.c` has a child.
pub open spec fn pending_ok(t: TreeView, lv: Seq<nat>, f: Fix) -> bool {
    match f.e {
        Some(e) => {
            &&& 0 <= e < t.nodes.len()
            &&& e != t.root.index()
            &&& e != f.c
            &&& lv[e] == lv[f.c]
            &&& t.nodes[e].parent is Root
            &&& t.nodes[f.c].children.len() >= 1
        },
        None => true,
    }
}

/// The fanout limits as they hold while the tree is being mended: of every
/// node, and of `f.c` where its sibling is pending.
pub open spec fn fan_mid(t: TreeView, f: Fix) -> bool {
    &&& forall|i: int| 0 <= i < t.nodes.len() ==> t.fanout_ok_at(i)
    &&& t.nodes[t.root.index()].children.len() <= t.max_records
    &&& f.e is Some ==> t.min_records <= t.nodes[f.c].children.len() <= t.max_records
}

/// The tree is well formed but for the rectangle of the parent of `f.c`,
/// which was made from `f.believed` in place of the rectangle of `f.c`,
/// and but for `f.e`, which no node holds yet.
pub open spec fn mid_ok(t: TreeView, lv: Seq<nat>, f: Fix) -> bool {
    &&& t.base_ok()
    &&& lv.len() == t.nodes.len()
    &&& t.root_ok(lv)
    &&& 0 <= f.c < t.nodes.len()
    &&& f.bound.len() == t.dimension
    &&& f.added.len() == t.dimension
    &&& (f.believed.len() == 0 || f.believed.len() == t.dimension)
    &&& pending_ok(t, lv, f)
    &&& forall|i: int| 0 <= i < t.nodes.len() ==> local_ok(t, lv, i, f.bound)
    &&& forall|i: int|
        0 <= i < t.nodes.len() && i != t.root.index() && f.e != Some(i) ==> t.up_ok(lv, i)
    &&& forall|i: int|
        0 <= i < t.nodes.len() && (f.c == t.root.index() || i != t.nodes[f.c].parent.index())
            ==> t.cover_ok(i)
    &&& f.c != t.root.index() ==> t.nodes[t.nodes[f.c].parent.index()].mbr == spec_hull(
        child_mbrs_with(t, t.nodes[f.c].parent.index(), id_of(lv, f.c), f.believed),
    )
    &&& within(
        spec_common(f.believed, f.added),
        spec_common(t.nodes[f.c].mbr, pending_mbr(t, f.e)),
    )
    &&& f.fan ==> fan_mid(t, f)
    &&& forall|d: int| #[trigger] f.keep.contains(d) ==> t.attached(d)
}

/// Child rectangles, patched or not, can be combined.
pub proof fn lemma_child_mbrs_with_compatible(
    t: TreeView,
    lv: Seq<nat>,
    i: int,
    x: RecordId,
    m: Seq<Bounds>,
    bound: Seq<Bounds>,
)
    requires
        t.all_data_ok(),
        lv.len() == t.nodes.len(),
        0 <= i < t.nodes.len(),
        forall|j: int| 0 <= j < t.nodes.len() ==> local_ok(t, lv, j, bound),
        m.len() == 0 || m.len() == t.dimension,
    ensures
        all_compatible(child_mbrs_with(t, i, x, m), t.dimension),
        all_compatible(t.child_mbrs(i), t.dimension),
{
    let s = child_mbrs_with(t, i, x, m);
    let s2 = t.child_mbrs(i);
    assert(local_ok(t, lv, i, bound));
    assert forall|k: int| 0 <= k < s.len() implies ((#[trigger] s[k]).len() == 0 || s[k].len()
        == t.dimension) by {
        assert(t.child_ok(lv, i, k));
        let c = t.nodes[i].children[k];
        if lv[i] == 0 {
            assert(t.data_ok(c.index()));
        } else {
            assert(local_ok(t, lv, c.index(), bound));
        }
    }
    assert forall|k: int| 0 <= k < s2.len() implies ((#[trigger] s2[k]).len() == 0 || s2[k].len()
        == t.dimension) by {
        assert(t.child_ok(lv, i, k));
        let c = t.nodes[i].children[k];
        if lv[i] == 0 {
            assert(t.data_ok(c.index()));
        } else {
            assert(local_ok(t, lv, c.index(), bound));
        }
    }
}

/// A tree that is mended up to its root, with no sibling pending, is well
/// formed.
pub proof fn lemma_mid_done(t: TreeView, lv: Seq<nat>, f: Fix)
    requires
        mid_ok(t, lv, f),
        f.c == t.root.index(),
        f.e is None,
    ensures
        t.wf_lv(lv),
        f.fan ==> t.fanout_ok(),
        forall|d: int| f.keep.contains(d) ==> t.attached(d),
        within(spec_common(f.believed, f.added), t.nodes[t.root.index()].mbr),
        within(t.nodes[t.root.index()].mbr, f.bound),
{
    assert forall|i: int| 0 <= i < t.nodes.len() implies t.node_ok(lv, i) by {
        assert(local_ok(t, lv, i, f.bound));
        assert(t.cover_ok(i));
    }
    assert(local_ok(t, lv, f.c, f.bound));
    assert(spec_common(t.nodes[f.c].mbr, pending_mbr(t, f.e)) =~= t.nodes[f.c].mbr);
}

/// One step upward with no sibling pending: the parent's rectangle is
/// widened by that of the node below.
pub proof fn lemma_up_plain(t: TreeView, lv: Seq<nat>, f: Fix)
    requires
        mid_ok(t, lv, f),
        f.c != t.root.index(),
        f.e is None,
    ensures
        ({
            let p = t.nodes[f.c].parent.index();
            let t2 = t.set_node_mbr(p, spec_common(t.nodes[p].mbr, t.nodes[f.c].mbr));
            mid_ok(t2, lv, Fix { c: p, believed: t.nodes[p].mbr, ..f })
        }),
{
    let c = f.c;
    let p = t.nodes[c].parent.index();
    let r = t.root.index();
    assert(t.up_ok(lv, c));
    let mp = t.nodes[p].mbr;
    let mc = t.nodes[c].mbr;
    let m2 = spec_common(mp, mc);
    let t2 = t.set_node_mbr(p, m2);
    let f2 = Fix { c: p, believed: mp, ..f };
    assert(local_ok(t, lv, p, f.bound));
    assert(local_ok(t, lv, c, f.bound));
    lemma_common_holds(mp, mc);
    lemma_common_least(mp, mc, f.bound);
    assert(t2.data =~= t.data);
    lemma_base_kept(t, t2);
    // every node keeps its local properties
    assert forall|i: int| 0 <= i < t2.nodes.len() implies local_ok(t2, lv, i, f.bound) by {
        assert(local_ok(t, lv, i, f.bound));
        assert forall|k: int| 0 <= k < t2.nodes[i].children.len() implies t2.child_ok(
            lv,
            i,
            k,
        ) by {
            assert(t.child_ok(lv, i, k));
        }
    }
    assert forall|i: int|
        0 <= i < t2.nodes.len() && i != t2.root.index() && f2.e != Some(i) implies t2.up_ok(
        lv,
        i,
    ) by {
        assert(t.up_ok(lv, i));
    }
    // rectangles of children
    let kc = choose|k: int|
        0 <= k < t.nodes[p].children.len() && t.nodes[p].children[k] == id_of(lv, c);
    lemma_child_mbrs_with_compatible(t, lv, p, id_of(lv, c), f.believed, f.bound);
    let s = child_mbrs_with(t, p, id_of(lv, c), f.believed);
    let s2 = t.child_mbrs(p);
    lemma_common_holds(f.believed, f.added);
    assert(spec_common(mc, pending_mbr(t, f.e)) =~= mc);
    lemma_within_transitive(f.believed, spec_common(f.believed, f.added), mc);
    assert(spec_common(mc, Seq::<Bounds>::empty()) =~= mc);
    assert forall|k: int| 0 <= k < s.len() implies #[trigger] s[k] == s2[k] || (s2[k] == mc
        && within(s[k], spec_common(mc, Seq::<Bounds>::empty()))) by {}
    assert(s2[kc] == mc);
    lemma_hull_patch(s, s2, t.dimension, mc, Seq::empty());
    lemma_hull_shape(s, t.dimension);
    lemma_hull_shape(s2, t.dimension);
    assert(spec_common(spec_common(spec_hull(s), mc), Seq::<Bounds>::empty()) =~= m2);
    assert(spec_common(spec_hull(s2), Seq::<Bounds>::empty()) =~= spec_hull(s2));
    assert(t2.child_mbrs(p) =~= s2) by {
        assert forall|k: int| 0 <= k < s2.len() implies t2.child_mbrs(p)[k] == s2[k] by {
            assert(t.child_ok(lv, p, k));
            assert(t.nodes[p].children[k].index() != p);
        }
    }
    assert forall|i: int|
        0 <= i < t2.nodes.len() && (p == t2.root.index() || i != t2.nodes[p].parent.index())
        implies t2.cover_ok(i) by {
        if i != p {
            assert(t.cover_ok(i));
            assert(local_ok(t, lv, i, f.bound));
            assert(t2.child_mbrs(i) =~= t.child_mbrs(i)) by {
                assert forall|k: int| 0 <= k < t.nodes[i].children.len() implies t2.child_mbrs(
                    i,
                )[k] == t.child_mbrs(i)[k] by {
                    assert(t.child_ok(lv, i, k));
                    if t.nodes[i].children[k].is_node() && t.nodes[i].children[k].index() == p {
                        assert(p != r);
                        assert(t.up_ok(lv, p));
                    }
                }
            }
        }
    }
    if p != r {
        assert(t.up_ok(lv, p));
        let pp = t.nodes[p].parent.index();
        assert(pp != p);
        assert(t.cover_ok(pp));
        assert(child_mbrs_with(t2, pp, id_of(lv, p), mp) =~= t.child_mbrs(pp)) by {
            assert forall|k: int| 0 <= k < t.nodes[pp].children.len() implies child_mbrs_with(
                t2,
                pp,
                id_of(lv, p),
                mp,
            )[k] == t.child_mbrs(pp)[k] by {
                assert(local_ok(t, lv, pp, f.bound));
                assert(t.child_ok(lv, pp, k));
            }
        }
    }
    // what the parent now holds
    lemma_common_holds(mp, f.added);
    lemma_within_transitive(f.added, spec_common(f.believed, f.added), mc);
    lemma_within_transitive(f.added, mc, m2);
    lemma_common_least(mp, f.added, m2);
    assert(spec_common(m2, pending_mbr(t2, f2.e)) =~= m2);
    assert forall|d: int| f2.keep.contains(d) implies t2.attached(d) by {
        assert(t.attached(d));
    }
    if f.fan {
        assert forall|i: int| 0 <= i < t2.nodes.len() implies t2.fanout_ok_at(i) by {
            assert(t.fanout_ok_at(i));
        }
    }
    assert(mid_ok(t2, lv, f2));
}


/// In a well-formed tree every node's rectangle lies inside the root's.
pub proof fn lemma_node_within_root(t: TreeView, lv: Seq<nat>, i: int)
    requires
        t.wf_lv(lv),
        0 <= i < t.nodes.len(),
    ensures
        within(t.nodes[i].mbr, t.nodes[t.root.index()].mbr),
    decreases lv[t.root.index()] - lv[i],
{
    assert(t.node_ok(lv, i));
    if i != t.root.index() {
        assert(t.up_ok(lv, i));
        let p = t.nodes[i].parent.index();
        let k = choose|k: int|
            0 <= k < t.nodes[p].children.len() && t.nodes[p].children[k] == id_of(lv, i);
        crate::search::lemma_child_within(t, lv, p, k);
        assert(t.node_ok(lv, p));
        lemma_node_within_root(t, lv, p);
        lemma_within_transitive(t.nodes[i].mbr, t.nodes[p].mbr, t.nodes[t.root.index()].mbr);
    }
}

/// In a well-formed tree every node is locally in order, inside any
/// rectangle that holds the root's.
pub proof fn lemma_wf_local(t: TreeView, lv: Seq<nat>, bound: Seq<Bounds>)
    requires
        t.wf_lv(lv),
        within(t.nodes[t.root.index()].mbr, bound),
    ensures
        forall|i: int| 0 <= i < t.nodes.len() ==> local_ok(t, lv, i, bound),
{
    assert forall|i: int| 0 <= i < t.nodes.len() implies local_ok(t, lv, i, bound) by {
        assert(t.node_ok(lv, i));
        lemma_node_within_root(t, lv, i);
        lemma_within_transitive(t.nodes[i].mbr, t.nodes[t.root.index()].mbr, bound);
    }
}

/// A data node is appended to a leaf that has room for it: the tree is
/// then in order but for the rectangles above the leaf.
pub proof fn lemma_leaf_bind(t: TreeView, lv: Seq<nat>, d: usize, f: Fix)
    requires
        t.wf_lv(lv),
        0 <= f.c < t.nodes.len(),
        lv[f.c] == 0,
        d < t.data.len(),
        t.data[d as int].parent is Root,
        f.e is None,
        f.believed == t.nodes[f.c].mbr,
        f.added == t.data[d as int].mbr,
        f.bound.len() == t.dimension,
        within(t.nodes[t.root.index()].mbr, f.bound),
        within(f.added, f.bound),
        f.fan ==> t.fanout_ok() && t.nodes[f.c].children.len() < t.max_records,
        forall|d2: int| #[trigger] f.keep.contains(d2) ==> t.attached(d2) || d2 == d,
    ensures
        mid_ok(
            t.add_child(f.c, RecordId::Data(d)).set_data_parent(
                d as int,
                RecordId::Leaf(f.c as usize),
            ),
            lv,
            f,
        ),
{
    let l = f.c;
    let x = RecordId::Data(d);
    let r = t.root.index();
    let m = t.data[d as int].mbr;
    let ml = t.nodes[l].mbr;
    let t1 = t.add_child(l, x);
    let t2 = t1.set_data_parent(d as int, RecordId::Leaf(l as usize));
    lemma_wf_local(t, lv, f.bound);
    assert(t.data_ok(d as int));
    assert(local_ok(t, lv, l, f.bound));
    assert(t.node_ok(lv, l));
    lemma_common_holds(ml, m);
    lemma_common_least(ml, m, f.bound);
    let m2 = t2.nodes[l].mbr;
    assert(m2 == spec_common(ml, m)) by {
        if t.nodes[l].children.len() == 0 {
            assert(t.child_mbrs(l) =~= Seq::<Seq<Bounds>>::empty());
            assert(ml =~= Seq::<Bounds>::empty());
        }
    }
    lemma_base_kept(t, t2);
    // the data node was in no node
    assert forall|i: int, k: int|
        0 <= i < t.nodes.len() && 0 <= k < t.nodes[i].children.len() implies t.nodes[i].children[k]
        != x by {
        assert(t.node_ok(lv, i));
        assert(t.child_ok(lv, i, k));
    }
    assert forall|i: int| 0 <= i < t2.nodes.len() implies local_ok(t2, lv, i, f.bound) by {
        assert(local_ok(t, lv, i, f.bound));
        assert forall|k: int| 0 <= k < t2.nodes[i].children.len() implies t2.child_ok(
            lv,
            i,
            k,
        ) by {
            if i == l && k == t.nodes[l].children.len() {
            } else {
                assert(t.child_ok(lv, i, k));
            }
        }
    }
    assert forall|i: int|
        0 <= i < t2.nodes.len() && i != t2.root.index() && f.e != Some(i) implies t2.up_ok(
        lv,
        i,
    ) by {
        assert(t.up_ok(lv, i));
        let p = t.nodes[i].parent.index();
        let k = choose|k: int|
            0 <= k < t.nodes[p].children.len() && t.nodes[p].children[k] == id_of(lv, i);
        assert(t2.nodes[p].children[k] == id_of(lv, i));
    }
    assert forall|i: int|
        0 <= i < t2.nodes.len() && (l == r || i != t.nodes[l].parent.index())
        implies #[trigger] t2.child_mbrs(i) == if i == l {
        t.child_mbrs(l).push(m)
    } else {
        t.child_mbrs(i)
    } by {
        assert(t.node_ok(lv, i));
        if l != r {
            assert(t.up_ok(lv, l));
        }
        if i == l {
            assert(t2.child_mbrs(l) =~= t.child_mbrs(l).push(m)) by {
                assert forall|k: int| 0 <= k < t.nodes[l].children.len() implies t2.child_mbrs(
                    l,
                )[k] == t.child_mbrs(l)[k] by {
                    assert(t.child_ok(lv, l, k));
                }
            }
        } else {
            assert(t2.child_mbrs(i) =~= t.child_mbrs(i)) by {
                assert forall|k: int| 0 <= k < t.nodes[i].children.len() implies t2.child_mbrs(
                    i,
                )[k] == t.child_mbrs(i)[k] by {
                    assert(t.child_ok(lv, i, k));
                }
            }
        }
    }
    lemma_hull_push(t.child_mbrs(l), m);
    assert forall|i: int|
        0 <= i < t2.nodes.len() && (l == t2.root.index() || i != t2.nodes[l].parent.index())
        implies t2.cover_ok(i) by {
        assert(t.node_ok(lv, i));
        assert(t2.child_mbrs(i) == if i == l {
            t.child_mbrs(l).push(m)
        } else {
            t.child_mbrs(i)
        });
    }
    if l != r {
        assert(t.up_ok(lv, l));
        let p = t.nodes[l].parent.index();
        assert(t.node_ok(lv, p));
        assert(child_mbrs_with(t2, p, id_of(lv, l), ml) =~= t.child_mbrs(p)) by {
            assert forall|k: int| 0 <= k < t.nodes[p].children.len() implies child_mbrs_with(
                t2,
                p,
                id_of(lv, l),
                ml,
            )[k] == t.child_mbrs(p)[k] by {
                assert(t.child_ok(lv, p, k));
            }
        }
    }
    assert(spec_common(m2, pending_mbr(t2, f.e)) =~= m2);
    assert forall|d2: int| f.keep.contains(d2) implies t2.attached(d2) by {
        if d2 == d {
            assert(t2.nodes[l].children[t.nodes[l].children.len() as int] == x);
        } else {
            assert(t.attached(d2));
            let q = t.data[d2].parent.index();
            let c2 = RecordId::Data(d2 as usize);
            let k = choose|k: int| 0 <= k < t.nodes[q].children.len() && t.nodes[q].children[k] == c2;
            assert(t2.nodes[q].children[k] == c2);
        }
    }
    if f.fan {
        assert forall|i: int| 0 <= i < t2.nodes.len() implies t2.fanout_ok_at(i) by {
            assert(t.fanout_ok_at(i));
        }
    }
    assert(mid_ok(t2, lv, f));
}


/// One step upward with a sibling pending and room for it in the parent:
/// the parent's rectangle is widened by that of the node below, and the
/// sibling becomes the parent's last child.
pub proof fn lemma_up_bind(t: TreeView, lv: Seq<nat>, f: Fix)
    requires
        mid_ok(t, lv, f),
        f.c != t.root.index(),
        f.e is Some,
        f.fan ==> t.nodes[t.nodes[f.c].parent.index()].children.len() < t.max_records,
    ensures
        ({
            let p = t.nodes[f.c].parent.index();
            let e = f.e.unwrap();
            let t1 = t.set_node_mbr(p, spec_common(t.nodes[p].mbr, t.nodes[f.c].mbr));
            let t2 = t1.add_child(p, id_of(lv, e)).set_node_parent(
                e,
                RecordId::Internal(p as usize),
            );
            mid_ok(t2, lv, Fix { c: p, e: None, believed: t.nodes[p].mbr, ..f })
        }),
{
    let c = f.c;
    let e = f.e.unwrap();
    let p = t.nodes[c].parent.index();
    let r = t.root.index();
    assert(t.up_ok(lv, c));
    let mp = t.nodes[p].mbr;
    let mc = t.nodes[c].mbr;
    let me = t.nodes[e].mbr;
    let m1 = spec_common(mp, mc);
    let m2 = spec_common(m1, me);
    let x = id_of(lv, e);
    let t1 = t.set_node_mbr(p, m1);
    let t2 = t1.add_child(p, x).set_node_parent(e, RecordId::Internal(p as usize));
    let f2 = Fix { c: p, e: None, believed: mp, ..f };
    assert(local_ok(t, lv, p, f.bound));
    assert(local_ok(t, lv, c, f.bound));
    assert(local_ok(t, lv, e, f.bound));
    let kc = choose|k: int|
        0 <= k < t.nodes[p].children.len() && t.nodes[p].children[k] == id_of(lv, c);
    assert(t2.nodes[p].mbr == m2);
    lemma_common_holds(mp, mc);
    lemma_common_least(mp, mc, f.bound);
    lemma_common_holds(m1, me);
    lemma_common_least(m1, me, f.bound);
    lemma_base_kept(t, t2);
    // the sibling was in no node
    assert forall|i: int, k: int|
        0 <= i < t.nodes.len() && 0 <= k < t.nodes[i].children.len() implies t.nodes[i].children[k]
        != x by {
        assert(local_ok(t, lv, i, f.bound));
        assert(t.child_ok(lv, i, k));
    }
    assert forall|i: int| 0 <= i < t2.nodes.len() implies local_ok(t2, lv, i, f.bound) by {
        assert(local_ok(t, lv, i, f.bound));
        assert forall|k: int| 0 <= k < t2.nodes[i].children.len() implies t2.child_ok(
            lv,
            i,
            k,
        ) by {
            if i == p && k == t.nodes[p].children.len() {
            } else {
                assert(t.child_ok(lv, i, k));
            }
        }
    }
    assert forall|i: int|
        0 <= i < t2.nodes.len() && i != t2.root.index() && f2.e != Some(i) implies t2.up_ok(
        lv,
        i,
    ) by {
        if i == e {
            assert(t2.nodes[p].children[t.nodes[p].children.len() as int] == x);
        } else {
            assert(t.up_ok(lv, i));
            let q = t.nodes[i].parent.index();
            let k = choose|k: int|
                0 <= k < t.nodes[q].children.len() && t.nodes[q].children[k] == id_of(lv, i);
            assert(t2.nodes[q].children[k] == id_of(lv, i));
        }
    }
    // rectangles of children
    lemma_child_mbrs_with_compatible(t, lv, p, id_of(lv, c), f.believed, f.bound);
    let s = child_mbrs_with(t, p, id_of(lv, c), f.believed);
    let s2 = t.child_mbrs(p);
    lemma_common_holds(f.believed, f.added);
    lemma_common_holds(mc, me);
    lemma_within_transitive(f.believed, spec_common(f.believed, f.added), spec_common(mc, me));
    assert forall|k: int| 0 <= k < s.len() implies #[trigger] s[k] == s2[k] || (s2[k] == mc
        && within(s[k], spec_common(mc, me))) by {}
    assert(s2[kc] == mc);
    lemma_hull_patch(s, s2, t.dimension, mc, me);
    lemma_hull_push(s2, me);
    assert(t2.child_mbrs(p) =~= s2.push(me)) by {
        assert forall|k: int| 0 <= k < s2.len() implies t2.child_mbrs(p)[k] == s2[k] by {
            assert(t.child_ok(lv, p, k));
            assert(t.nodes[p].children[k].index() != p);
        }
    }
    assert forall|i: int|
        0 <= i < t2.nodes.len() && (p == t2.root.index() || i != t2.nodes[p].parent.index())
        implies t2.cover_ok(i) by {
        if i != p {
            assert(t.cover_ok(i));
            assert(local_ok(t, lv, i, f.bound));
            assert(t2.child_mbrs(i) =~= t.child_mbrs(i)) by {
                assert forall|k: int| 0 <= k < t.nodes[i].children.len() implies t2.child_mbrs(
                    i,
                )[k] == t.child_mbrs(i)[k] by {
                    assert(t.child_ok(lv, i, k));
                    if t.nodes[i].children[k].is_node() && t.nodes[i].children[k].index() == p {
                        assert(p != r);
                        assert(t.up_ok(lv, p));
                    }
                }
            }
        }
    }
    if p != r {
        assert(t.up_ok(lv, p));
        let pp = t.nodes[p].parent.index();
        assert(pp != p);
        assert(t.cover_ok(pp));
        assert(child_mbrs_with(t2, pp, id_of(lv, p), mp) =~= t.child_mbrs(pp)) by {
            assert forall|k: int| 0 <= k < t.nodes[pp].children.len() implies child_mbrs_with(
                t2,
                pp,
                id_of(lv, p),
                mp,
            )[k] == t.child_mbrs(pp)[k] by {
                assert(local_ok(t, lv, pp, f.bound));
                assert(t.child_ok(lv, pp, k));
            }
        }
    }
    // what the parent now holds
    lemma_common_holds(mp, f.added);
    lemma_within_transitive(f.added, spec_common(f.believed, f.added), spec_common(mc, me));
    lemma_within_transitive(mc, m1, m2);
    lemma_common_least(mc, me, m2);
    lemma_within_transitive(f.added, spec_common(mc, me), m2);
    lemma_within_transitive(mp, m1, m2);
    lemma_common_least(mp, f.added, m2);
    assert(spec_common(m2, pending_mbr(t2, f2.e)) =~= m2);
    assert forall|d: int| f2.keep.contains(d) implies t2.attached(d) by {
        assert(t.attached(d));
        let q = t.data[d].parent.index();
        let c2 = RecordId::Data(d as usize);
        let k = choose|k: int| 0 <= k < t.nodes[q].children.len() && t.nodes[q].children[k] == c2;
        assert(t2.nodes[q].children[k] == c2);
    }
    if f.fan {
        assert forall|i: int| 0 <= i < t2.nodes.len() implies t2.fanout_ok_at(i) by {
            assert(t.fanout_ok_at(i));
        }
    }
    assert(mid_ok(t2, lv, f2));
}

/// The state after the root got a sibling: a new internal root holds both.
pub open spec fn grown(t: TreeView, lv: Seq<nat>, c: int, e: int) -> TreeView {
    let n = t.nodes.len() as int;
    let top = RecordId::Internal(n as usize);
    t.push_node(NodeView { parent: RecordId::Root, mbr: Seq::empty(), children: Seq::empty() })
        .add_child(n, id_of(lv, c)).set_node_parent(c, top).add_child(
        n,
        id_of(lv, e),
    ).set_node_parent(e, top).set_root(top)
}

/// A tree mended up to its root, with a sibling of the root pending, is well
/// formed once a new root holds both.
pub proof fn lemma_grow_root(t: TreeView, lv: Seq<nat>, f: Fix)
    requires
        mid_ok(t, lv, f),
        f.c == t.root.index(),
        f.e is Some,
        t.nodes.len() < usize::MAX,
    ensures
        ({
            let t2 = grown(t, lv, f.c, f.e.unwrap());
            let lv2 = lv.push(lv[f.c] + 1);
            &&& t2.wf_lv(lv2)
            &&& (f.fan ==> t2.fanout_ok())
            &&& (forall|d: int| f.keep.contains(d) ==> t2.attached(d))
            &&& within(spec_common(f.believed, f.added), t2.nodes[t2.root.index()].mbr)
            &&& within(t2.nodes[t2.root.index()].mbr, f.bound)
        }),
{
    let c = f.c;
    let e = f.e.unwrap();
    let n = t.nodes.len() as int;
    let top = RecordId::Internal(n as usize);
    let t2 = grown(t, lv, c, e);
    let lv2 = lv.push((lv[c] + 1) as nat);
    let mc = t.nodes[c].mbr;
    let me = t.nodes[e].mbr;
    let m2 = spec_common(mc, me);
    assert(local_ok(t, lv, c, f.bound));
    assert(local_ok(t, lv, e, f.bound));
    assert(t2.nodes.len() == n + 1);
    assert(t2.nodes[n].children =~= seq![id_of(lv, c), id_of(lv, e)]);
    assert(t2.nodes[n].mbr == m2);
    lemma_common_holds(mc, me);
    lemma_common_least(mc, me, f.bound);
    lemma_base_kept(t, t2);
    assert forall|i: int| 0 <= i < n implies id_of(lv2, i) == id_of(lv, i) by {}
    assert forall|i: int| 0 <= i < t2.nodes.len() implies t2.node_ok(lv2, i) by {
        if i < n {
            assert(local_ok(t, lv, i, f.bound));
            assert(t.cover_ok(i));
            assert forall|k: int| 0 <= k < t2.nodes[i].children.len() implies t2.child_ok(
                lv2,
                i,
                k,
            ) by {
                assert(t.child_ok(lv, i, k));
            }
            assert(t2.child_mbrs(i) =~= t.child_mbrs(i)) by {
                assert forall|k: int| 0 <= k < t.nodes[i].children.len() implies t2.child_mbrs(
                    i,
                )[k] == t.child_mbrs(i)[k] by {
                    assert(t.child_ok(lv, i, k));
                }
            }
        } else {
            assert(t2.child_mbrs(n) =~= seq![mc, me]);
            let s0 = Seq::<Seq<Bounds>>::empty();
            lemma_hull_push(s0, mc);
            lemma_hull_push(s0.push(mc), me);
            assert(s0.push(mc).push(me) =~= seq![mc, me]);
            assert(spec_common(spec_hull(s0), mc) =~= mc);
        }
    }
    assert forall|i: int|
        0 <= i < t2.nodes.len() && i != t2.root.index() implies t2.up_ok(lv2, i) by {
        if i == c {
            assert(t2.nodes[n].children[0] == id_of(lv2, c));
        } else if i == e {
            assert(t2.nodes[n].children[1] == id_of(lv2, e));
        } else {
            assert(t.up_ok(lv, i));
            let q = t.nodes[i].parent.index();
            let k = choose|k: int|
                0 <= k < t.nodes[q].children.len() && t.nodes[q].children[k] == id_of(lv, i);
            assert(t2.nodes[q].children[k] == id_of(lv2, i));
        }
    }
    assert forall|d: int| f.keep.contains(d) implies t2.attached(d) by {
        assert(t.attached(d));
        let q = t.data[d].parent.index();
        let c2 = RecordId::Data(d as usize);
        let k = choose|k: int| 0 <= k < t.nodes[q].children.len() && t.nodes[q].children[k] == c2;
        assert(t2.nodes[q].children[k] == c2);
    }
    if f.fan {
        assert forall|i: int| 0 <= i < t2.nodes.len() implies t2.fanout_ok_at(i) by {
            if i < n {
                assert(t.fanout_ok_at(i));
            }
        }
    }
    assert(t2.wf_lv(lv2));
}


/// A node identifier in `ids` names node `j`.
pub open spec fn named(ids: Seq<RecordId>, j: int) -> bool {
    ids.contains(RecordId::Leaf(j as usize)) || ids.contains(RecordId::Internal(j as usize))
}

/// The tree with `parent` as the parent of every record that `ids` names.
pub open spec fn reparent(t: TreeView, ids: Seq<RecordId>, parent: RecordId) -> TreeView {
    TreeView {
        nodes: Seq::new(
            t.nodes.len(),
            |j: int|
                if named(ids, j) {
                    NodeView { parent, ..t.nodes[j] }
                } else {
                    t.nodes[j]
                },
        ),
        data: Seq::new(
            t.data.len(),
            |d: int|
                if ids.contains(RecordId::Data(d as usize)) {
                    crate::model::DataView { parent, ..t.data[d] }
                } else {
                    t.data[d]
                },
        ),
        ..t
    }
}

/// Rectangles of the records that `ids` names, in order.
pub open spec fn mbrs_of(t: TreeView, ids: Seq<RecordId>) -> Seq<Seq<Bounds>> {
    Seq::new(ids.len(), |k: int| t.rec_mbr(ids[k]))
}

/// The identifier of the node that a split of node `p` creates.
pub open spec fn sibling_id(t: TreeView, lv: Seq<nat>, p: int) -> RecordId {
    if lv[p] == 0 {
        RecordId::Leaf(t.nodes.len() as usize)
    } else {
        RecordId::Internal(t.nodes.len() as usize)
    }
}

/// The tree after node `p` was split: `p` holds `a`, a new node holds `b`,
/// each with the common rectangle of what it holds, and every record of `a`
/// and `b` names its holder as its parent.
pub open spec fn split_state(
    t: TreeView,
    lv: Seq<nat>,
    p: int,
    a: Seq<RecordId>,
    b: Seq<RecordId>,
) -> TreeView {
    let mid = t.set_children(p, a).set_node_mbr(p, spec_hull(mbrs_of(t, a))).push_node(
        NodeView { parent: RecordId::Root, mbr: spec_hull(mbrs_of(t, b)), children: b },
    );
    reparent(reparent(mid, a, id_of(lv, p)), b, sibling_id(t, lv, p))
}

/// `x` may become a child of node `p`: it exists, stands one level below
/// `p`, and no node holds it.
pub open spec fn loose_child(t: TreeView, lv: Seq<nat>, p: int, x: RecordId) -> bool {
    &&& t.resolves(x)
    &&& if lv[p] == 0 {
        x is Data && t.data[x.index()].parent is Root
    } else {
        &&& x.is_node()
        &&& x == id_of(lv, x.index())
        &&& lv[x.index()] + 1 == lv[p]
        &&& t.nodes[x.index()].parent is Root
        &&& x.index() != t.root.index()
    }
}

/// What must hold before node `p` is split to take in `x`.
pub open spec fn split_pre(t: TreeView, lv: Seq<nat>, p: int, x: RecordId, f: Fix) -> bool {
    &&& t.base_ok()
    &&& lv.len() == t.nodes.len()
    &&& t.root_ok(lv)
    &&& 0 <= p < t.nodes.len()
    &&& f.bound.len() == t.dimension
    &&& f.added.len() == t.dimension
    &&& loose_child(t, lv, p, x)
    &&& forall|i: int| 0 <= i < t.nodes.len() ==> local_ok(t, lv, i, f.bound)
    &&& forall|i: int|
        0 <= i < t.nodes.len() && i != t.root.index() && !(x.is_node() && x.index() == i)
            ==> t.up_ok(lv, i)
    &&& forall|i: int| 0 <= i < t.nodes.len() && i != p ==> t.cover_ok(i)
    &&& forall|k: int|
        0 <= k < t.nodes[p].children.len() ==> within(
            t.rec_mbr(#[trigger] t.nodes[p].children[k]),
            f.bound,
        )
    &&& within(t.rec_mbr(x), f.bound)
    &&& within(
        spec_common(t.nodes[p].mbr, f.added),
        spec_common(spec_hull(t.child_mbrs(p)), t.rec_mbr(x)),
    )
    &&& f.fan ==> (forall|i: int| 0 <= i < t.nodes.len() ==> t.fanout_ok_at(i))
        && t.nodes[t.root.index()].children.len() <= t.max_records
    &&& forall|d: int|
        #[trigger] f.keep.contains(d) ==> t.attached(d) || (0 <= d < t.data.len()
            && RecordId::Data(d as usize) == x)
}

/// What must hold of the two groups that a split makes of the children of
/// `p` and `x`.
pub open spec fn parts_ok(t: TreeView, p: int, x: RecordId, a: Seq<RecordId>, b: Seq<RecordId>, fan: bool) -> bool {
    &&& a.to_multiset().add(b.to_multiset()) == t.nodes[p].children.push(x).to_multiset()
    &&& a.len() >= 1
    &&& b.len() >= 1
    &&& fan ==> t.min_records <= a.len() <= t.max_records && t.min_records <= b.len()
        <= t.max_records
}

/// Two sequences that together hold what a sequence without duplicates
/// holds: each of them holds nothing twice, they share nothing, and nothing
/// is lost or added.
pub proof fn lemma_parts_facts(s: Seq<RecordId>, a: Seq<RecordId>, b: Seq<RecordId>)
    requires
        s.no_duplicates(),
        a.to_multiset().add(b.to_multiset()) == s.to_multiset(),
    ensures
        a.no_duplicates(),
        b.no_duplicates(),
        a.len() + b.len() == s.len(),
        forall|y: RecordId| s.contains(y) <==> a.contains(y) || b.contains(y),
        forall|y: RecordId| !(a.contains(y) && b.contains(y)),
{
    broadcast use vstd::seq_lib::group_to_multiset_ensures;

    s.lemma_multiset_has_no_duplicates();
    assert forall|y: RecordId| a.to_multiset().contains(y) implies a.to_multiset().count(y)
        == 1 by {
        assert(a.to_multiset().count(y) + b.to_multiset().count(y) == s.to_multiset().count(y));
        assert(s.to_multiset().contains(y));
    }
    assert forall|y: RecordId| b.to_multiset().contains(y) implies b.to_multiset().count(y)
        == 1 by {
        assert(a.to_multiset().count(y) + b.to_multiset().count(y) == s.to_multiset().count(y));
        assert(s.to_multiset().contains(y));
    }
    a.lemma_multiset_has_no_duplicates_conv();
    b.lemma_multiset_has_no_duplicates_conv();
    assert forall|y: RecordId| s.contains(y) <==> a.contains(y) || b.contains(y) by {
        assert(a.to_multiset().count(y) + b.to_multiset().count(y) == s.to_multiset().count(y));
    }
    assert forall|y: RecordId| !(a.contains(y) && b.contains(y)) by {
        assert(a.to_multiset().count(y) + b.to_multiset().count(y) == s.to_multiset().count(y));
        if s.to_multiset().contains(y) {
            assert(s.to_multiset().count(y) == 1);
        }
    }
    assert(a.to_multiset().len() + b.to_multiset().len() == s.to_multiset().len());
}


/// `y` can be a child of node `p`: it exists, stands one level below `p`,
/// and its rectangle is in order and lies inside `bound`.
pub open spec fn fit_child(t: TreeView, lv: Seq<nat>, p: int, y: RecordId, bound: Seq<Bounds>) -> bool {
    &&& t.resolves(y)
    &&& within(t.rec_mbr(y), bound)
    &&& t.rec_mbr(y).len() == t.dimension
    &&& box_ordered(t.rec_mbr(y))
    &&& if lv[p] == 0 {
        y is Data
    } else {
        &&& y.is_node()
        &&& y == id_of(lv, y.index())
        &&& lv[y.index()] + 1 == lv[p]
        &&& y.index() != t.root.index()
        &&& y.index() != p
    }
}

/// Before a split, the children of `p` and `x` can all be children of `p`,
/// and none of them occurs twice.
pub proof fn lemma_split_members(t: TreeView, lv: Seq<nat>, p: int, x: RecordId, f: Fix)
    requires
        split_pre(t, lv, p, x, f),
    ensures
        t.nodes[p].children.push(x).no_duplicates(),
        forall|y: RecordId|
            t.nodes[p].children.push(x).contains(y) ==> fit_child(t, lv, p, y, f.bound),
        forall|i: int, k: int|
            0 <= i < t.nodes.len() && i != p && 0 <= k < t.nodes[i].children.len()
                ==> !t.nodes[p].children.push(x).contains(#[trigger] t.nodes[i].children[k]),
{
    let s = t.nodes[p].children.push(x);
    assert(local_ok(t, lv, p, f.bound));
    assert forall|k: int| 0 <= k < t.nodes[p].children.len() implies t.nodes[p].children[k]
        != x by {
        assert(t.child_ok(lv, p, k));
    }
    assert forall|y: RecordId| s.contains(y) implies fit_child(t, lv, p, y, f.bound) by {
        let k = choose|k: int| 0 <= k < s.len() && s[k] == y;
        if k < t.nodes[p].children.len() {
            assert(t.child_ok(lv, p, k));
            assert(within(t.rec_mbr(t.nodes[p].children[k]), f.bound));
            if lv[p] == 0 {
                assert(t.data_ok(y.index()));
            } else {
                assert(local_ok(t, lv, y.index(), f.bound));
            }
        } else {
            if lv[p] == 0 {
                assert(t.data_ok(y.index()));
            } else {
                assert(local_ok(t, lv, y.index(), f.bound));
            }
        }
    }
    assert forall|i: int, k: int|
        0 <= i < t.nodes.len() && i != p && 0 <= k < t.nodes[i].children.len() implies !s.contains(
        #[trigger] t.nodes[i].children[k],
    ) by {
        let y = t.nodes[i].children[k];
        assert(local_ok(t, lv, i, f.bound));
        assert(t.child_ok(lv, i, k));
        if s.contains(y) {
            let k2 = choose|k2: int| 0 <= k2 < s.len() && s[k2] == y;
            if k2 < t.nodes[p].children.len() {
                assert(t.child_ok(lv, p, k2));
            }
        }
    }
}

/// The hull of rectangles that are in order and inside `bound` is in order,
/// of the tree's dimension or undefined, and inside `bound`.
pub proof fn lemma_group_hull(t: TreeView, lv: Seq<nat>, p: int, ids: Seq<RecordId>, bound: Seq<Bounds>)
    requires
        forall|k: int| 0 <= k < ids.len() ==> fit_child(t, lv, p, #[trigger] ids[k], bound),
    ensures
        all_compatible(mbrs_of(t, ids), t.dimension),
        box_ordered(spec_hull(mbrs_of(t, ids))),
        spec_hull(mbrs_of(t, ids)).len() == 0 || spec_hull(mbrs_of(t, ids)).len() == t.dimension,
        within(spec_hull(mbrs_of(t, ids)), bound),
        forall|k: int|
            0 <= k < ids.len() ==> within(t.rec_mbr(#[trigger] ids[k]), spec_hull(mbrs_of(t, ids))),
{
    let s = mbrs_of(t, ids);
    assert forall|k: int| 0 <= k < s.len() implies ((#[trigger] s[k]).len() == 0 || s[k].len()
        == t.dimension) && box_ordered(s[k]) && within(s[k], bound) by {
        assert(fit_child(t, lv, p, ids[k], bound));
    }
    lemma_hull_shape(s, t.dimension);
    lemma_hull_least(s, t.dimension, bound);
    assert forall|k: int| 0 <= k < ids.len() implies within(
        t.rec_mbr(#[trigger] ids[k]),
        spec_hull(s),
    ) by {
        lemma_hull_holds(s, t.dimension, k);
        assert(s[k] == t.rec_mbr(ids[k]));
    }
}

/// A split leads to a tree that is in order but for the rectangle of the
/// parent of the split node, with the new node pending.
pub proof fn lemma_split(
    t: TreeView,
    lv: Seq<nat>,
    p: int,
    x: RecordId,
    f: Fix,
    a: Seq<RecordId>,
    b: Seq<RecordId>,
)
    requires
        split_pre(t, lv, p, x, f),
        parts_ok(t, p, x, a, b, f.fan),
        t.nodes.len() < usize::MAX,
    ensures
        mid_ok(
            split_state(t, lv, p, a, b),
            lv.push(lv[p]),
            Fix { c: p, e: Some(t.nodes.len() as int), believed: t.nodes[p].mbr, ..f },
        ),
{
    let n = t.nodes.len() as int;
    let r = t.root.index();
    let s = t.nodes[p].children.push(x);
    let pid = id_of(lv, p);
    let nid = sibling_id(t, lv, p);
    let lv2 = lv.push(lv[p]);
    let t2 = split_state(t, lv, p, a, b);
    let f2 = Fix { c: p, e: Some(n), believed: t.nodes[p].mbr, ..f };
    let ha = spec_hull(mbrs_of(t, a));
    let hb = spec_hull(mbrs_of(t, b));
    let z = spec_common(ha, hb);
    lemma_split_members(t, lv, p, x, f);
    lemma_parts_facts(s, a, b);
    assert(local_ok(t, lv, p, f.bound));
    assert forall|k: int| 0 <= k < a.len() implies fit_child(t, lv, p, #[trigger] a[k], f.bound) by {
        assert(a.contains(a[k]));
    }
    assert forall|k: int| 0 <= k < b.len() implies fit_child(t, lv, p, #[trigger] b[k], f.bound) by {
        assert(b.contains(b[k]));
    }
    lemma_group_hull(t, lv, p, a, f.bound);
    lemma_group_hull(t, lv, p, b, f.bound);
    lemma_common_holds(ha, hb);
    lemma_common_least(ha, hb, f.bound);
    assert(s[s.len() - 1] == x);
    assert(s.contains(x));
    // the fields of the new tree
    assert(t2.nodes.len() == n + 1);
    assert(!named(a, p) && !named(b, p) && !named(a, n) && !named(b, n)) by {
        if named(a, p) || named(b, p) || named(a, n) || named(b, n) {
            let y = if a.contains(RecordId::Leaf(p as usize)) || b.contains(
                RecordId::Leaf(p as usize),
            ) {
                RecordId::Leaf(p as usize)
            } else if a.contains(RecordId::Internal(p as usize)) || b.contains(
                RecordId::Internal(p as usize),
            ) {
                RecordId::Internal(p as usize)
            } else if a.contains(RecordId::Leaf(n as usize)) || b.contains(
                RecordId::Leaf(n as usize),
            ) {
                RecordId::Leaf(n as usize)
            } else {
                RecordId::Internal(n as usize)
            };
            assert(s.contains(y));
            assert(fit_child(t, lv, p, y, f.bound));
        }
    }
    assert(t2.nodes[p].children == a && t2.nodes[p].mbr == ha && t2.nodes[p].parent
        == t.nodes[p].parent);
    assert(t2.nodes[n].children == b && t2.nodes[n].mbr == hb && t2.nodes[n].parent is Root);
    assert forall|j: int| 0 <= j < n && j != p implies (#[trigger] t2.nodes[j]).children
        == t.nodes[j].children && t2.nodes[j].mbr == t.nodes[j].mbr && t2.nodes[j].parent == (if s.contains(
        id_of(lv, j),
    ) && lv[p] > 0 {
        if a.contains(id_of(lv, j)) {
            pid
        } else {
            nid
        }
    } else {
        t.nodes[j].parent
    }) by {
        let y1 = RecordId::Leaf(j as usize);
        let y2 = RecordId::Internal(j as usize);
        if s.contains(y1) {
            assert(fit_child(t, lv, p, y1, f.bound));
        }
        if s.contains(y2) {
            assert(fit_child(t, lv, p, y2, f.bound));
        }
    }
    assert forall|d: int| 0 <= d < t.data.len() implies (#[trigger] t2.data[d]).mbr
        == t.data[d].mbr && t2.data[d].removed == t.data[d].removed && t2.data[d].parent == (if s.contains(
        RecordId::Data(d as usize),
    ) {
        if a.contains(RecordId::Data(d as usize)) {
            pid
        } else {
            nid
        }
    } else {
        t.data[d].parent
    }) by {}
    assert(t2.data.len() == t.data.len());
    lemma_base_kept(t, t2);
    assert forall|i: int| 0 <= i < n implies id_of(lv2, i) == id_of(lv, i) by {}
    // rectangles of records that can be children are as before
    assert forall|y: RecordId| t.resolves(y) && !(y.is_node() && y.index() == p) implies t2.rec_mbr(
        y,
    ) == t.rec_mbr(y) by {}
    assert(mbrs_of(t2, a) =~= mbrs_of(t, a)) by {
        assert forall|k: int| 0 <= k < a.len() implies mbrs_of(t2, a)[k] == mbrs_of(t, a)[k] by {
            assert(fit_child(t, lv, p, a[k], f.bound));
        }
    }
    assert(mbrs_of(t2, b) =~= mbrs_of(t, b)) by {
        assert forall|k: int| 0 <= k < b.len() implies mbrs_of(t2, b)[k] == mbrs_of(t, b)[k] by {
            assert(fit_child(t, lv, p, b[k], f.bound));
        }
    }
    assert(t2.child_mbrs(p) =~= mbrs_of(t2, a));
    assert(t2.child_mbrs(n) =~= mbrs_of(t2, b));
    // every node is locally in order
    assert forall|i: int| 0 <= i < t2.nodes.len() implies local_ok(t2, lv2, i, f.bound) by {
        if i == p {
            assert forall|k: int| 0 <= k < a.len() implies t2.child_ok(lv2, p, k) by {
                assert(fit_child(t, lv, p, a[k], f.bound));
                assert(a.contains(a[k]));
                assert(s.contains(a[k]));
            }
        } else if i == n {
            assert forall|k: int| 0 <= k < b.len() implies t2.child_ok(lv2, n, k) by {
                assert(fit_child(t, lv, p, b[k], f.bound));
                assert(b.contains(b[k]));
                assert(s.contains(b[k]));
                assert(!a.contains(b[k]));
            }
        } else {
            assert(local_ok(t, lv, i, f.bound));
            assert forall|k: int| 0 <= k < t2.nodes[i].children.len() implies t2.child_ok(
                lv2,
                i,
                k,
            ) by {
                assert(t.child_ok(lv, i, k));
                assert(!s.contains(t.nodes[i].children[k]));
            }
        }
    }
    // every node but the root and the new one is held by its parent
    assert forall|i: int|
        0 <= i < t2.nodes.len() && i != t2.root.index() && f2.e != Some(i) implies t2.up_ok(
        lv2,
        i,
    ) by {
        if i == p {
            assert(t.up_ok(lv, p));
            let q = t.nodes[p].parent.index();
            let k = choose|k: int|
                0 <= k < t.nodes[q].children.len() && t.nodes[q].children[k] == id_of(lv, p);
            assert(t2.nodes[q].children[k] == id_of(lv2, p));
        } else if s.contains(id_of(lv, i)) && lv[p] > 0 {
            assert(fit_child(t, lv, p, id_of(lv, i), f.bound));
        } else {
            if x.is_node() && x.index() == i {
                assert(x == id_of(lv, i));
            }
            assert(t.up_ok(lv, i));
            let q = t.nodes[i].parent.index();
            let k = choose|k: int|
                0 <= k < t.nodes[q].children.len() && t.nodes[q].children[k] == id_of(lv, i);
            if q == p {
                assert(s[k] == id_of(lv, i));
                assert(local_ok(t, lv, p, f.bound));
                assert(t.child_ok(lv, p, k));
            }
            assert(t2.nodes[q].children[k] == id_of(lv2, i));
        }
    }
    // rectangles are exact everywhere but above the split node
    assert forall|i: int|
        0 <= i < t2.nodes.len() && (p == t2.root.index() || i != t2.nodes[p].parent.index())
        implies t2.cover_ok(i) by {
        if i != p && i != n {
            assert(t.cover_ok(i));
            assert(local_ok(t, lv, i, f.bound));
            assert(t2.child_mbrs(i) =~= t.child_mbrs(i)) by {
                assert forall|k: int| 0 <= k < t.nodes[i].children.len() implies t2.child_mbrs(
                    i,
                )[k] == t.child_mbrs(i)[k] by {
                    assert(t.child_ok(lv, i, k));
                    if t.nodes[i].children[k].is_node() && t.nodes[i].children[k].index() == p {
                        assert(p != r);
                        assert(t.up_ok(lv, p));
                    }
                }
            }
        }
    }
    if p != r {
        assert(t.up_ok(lv, p));
        let pp = t.nodes[p].parent.index();
        assert(pp != p);
        assert(t.cover_ok(pp));
        assert(local_ok(t, lv, pp, f.bound));
        assert(child_mbrs_with(t2, pp, id_of(lv2, p), t.nodes[p].mbr) =~= t.child_mbrs(pp)) by {
            assert forall|k: int| 0 <= k < t.nodes[pp].children.len() implies child_mbrs_with(
                t2,
                pp,
                id_of(lv2, p),
                t.nodes[p].mbr,
            )[k] == t.child_mbrs(pp)[k] by {
                assert(t.child_ok(lv, pp, k));
            }
        }
    }
    // what the two nodes hold together
    lemma_child_mbrs_with_compatible(t, lv, p, x, Seq::empty(), f.bound);
    assert forall|k: int| 0 <= k < t.child_mbrs(p).len() implies within(
        #[trigger] t.child_mbrs(p)[k],
        z,
    ) by {
        let y = t.nodes[p].children[k];
        assert(s[k] == y);
        assert(s.contains(y));
        if a.contains(y) {
            let k2 = choose|k2: int| 0 <= k2 < a.len() && a[k2] == y;
            lemma_within_transitive(t.rec_mbr(a[k2]), ha, z);
        } else {
            let k2 = choose|k2: int| 0 <= k2 < b.len() && b[k2] == y;
            lemma_within_transitive(t.rec_mbr(b[k2]), hb, z);
        }
    }
    lemma_hull_least(t.child_mbrs(p), t.dimension, z);
    assert(within(t.rec_mbr(x), z)) by {
        if a.contains(x) {
            let k2 = choose|k2: int| 0 <= k2 < a.len() && a[k2] == x;
            lemma_within_transitive(t.rec_mbr(a[k2]), ha, z);
        } else {
            let k2 = choose|k2: int| 0 <= k2 < b.len() && b[k2] == x;
            lemma_within_transitive(t.rec_mbr(b[k2]), hb, z);
        }
    }
    lemma_hull_shape(t.child_mbrs(p), t.dimension);
    assert(fit_child(t, lv, p, x, f.bound));
    lemma_common_least(spec_hull(t.child_mbrs(p)), t.rec_mbr(x), z);
    lemma_within_transitive(
        spec_common(t.nodes[p].mbr, f.added),
        spec_common(spec_hull(t.child_mbrs(p)), t.rec_mbr(x)),
        z,
    );
    // data nodes stay where they are, or move with their leaf
    assert forall|d: int| f2.keep.contains(d) implies t2.attached(d) by {
        let y = RecordId::Data(d as usize);
        assert(f.keep.contains(d));
        assert(0 <= d < t.data.len());
        if s.contains(y) {
            assert(fit_child(t, lv, p, y, f.bound));
        } else {
            assert(t.attached(d));
            let q = t.data[d].parent.index();
            let k = choose|k: int| 0 <= k < t.nodes[q].children.len() && t.nodes[q].children[k] == y;
            if q == p {
                assert(s[k] == y);
            }
            assert(t2.nodes[q].children[k] == y);
        }
    }
    if f.fan {
        assert forall|i: int| 0 <= i < t2.nodes.len() implies t2.fanout_ok_at(i) by {
            if i < n {
                assert(t.fanout_ok_at(i));
            }
        }
    }
    assert(mid_ok(t2, lv2, f2));
}


/// A full leaf of a well-formed tree can be split to take in a data node
/// that no leaf holds.
pub proof fn lemma_wf_split_pre(t: TreeView, lv: Seq<nat>, d: usize, f: Fix)
    requires
        t.wf_lv(lv),
        0 <= f.c < t.nodes.len(),
        lv[f.c] == 0,
        d < t.data.len(),
        t.data[d as int].parent is Root,
        f.added == t.data[d as int].mbr,
        f.bound.len() == t.dimension,
        within(t.nodes[t.root.index()].mbr, f.bound),
        within(f.added, f.bound),
        f.fan ==> t.fanout_ok(),
        forall|d2: int| #[trigger] f.keep.contains(d2) ==> t.attached(d2) || d2 == d,
    ensures
        split_pre(t, lv, f.c, RecordId::Data(d), f),
{
    let l = f.c;
    lemma_wf_local(t, lv, f.bound);
    assert(t.data_ok(d as int));
    assert(t.node_ok(lv, l));
    assert forall|i: int| 0 <= i < t.nodes.len() && i != l implies t.cover_ok(i) by {
        assert(t.node_ok(lv, i));
    }
    assert forall|k: int| 0 <= k < t.nodes[l].children.len() implies within(
        t.rec_mbr(#[trigger] t.nodes[l].children[k]),
        f.bound,
    ) by {
        crate::search::lemma_child_within(t, lv, l, k);
        assert(local_ok(t, lv, l, f.bound));
        lemma_within_transitive(t.rec_mbr(t.nodes[l].children[k]), t.nodes[l].mbr, f.bound);
    }
    lemma_common_holds(t.nodes[l].mbr, f.added);
}

/// A full parent can be split to take in the sibling that is pending below
/// it.
pub proof fn lemma_mid_split_pre(t: TreeView, lv: Seq<nat>, f: Fix)
    requires
        mid_ok(t, lv, f),
        f.c != t.root.index(),
        f.e is Some,
    ensures
        split_pre(t, lv, t.nodes[f.c].parent.index(), id_of(lv, f.e.unwrap()), f),
{
    let c = f.c;
    let e = f.e.unwrap();
    let x = id_of(lv, e);
    assert(t.up_ok(lv, c));
    let p = t.nodes[c].parent.index();
    let mp = t.nodes[p].mbr;
    let mc = t.nodes[c].mbr;
    let me = t.nodes[e].mbr;
    assert(local_ok(t, lv, p, f.bound));
    assert(local_ok(t, lv, c, f.bound));
    assert(local_ok(t, lv, e, f.bound));
    let kc = choose|k: int|
        0 <= k < t.nodes[p].children.len() && t.nodes[p].children[k] == id_of(lv, c);
    assert forall|k: int| 0 <= k < t.nodes[p].children.len() implies within(
        t.rec_mbr(#[trigger] t.nodes[p].children[k]),
        f.bound,
    ) by {
        assert(t.child_ok(lv, p, k));
        assert(local_ok(t, lv, t.nodes[p].children[k].index(), f.bound));
    }
    lemma_child_mbrs_with_compatible(t, lv, p, id_of(lv, c), f.believed, f.bound);
    let s = child_mbrs_with(t, p, id_of(lv, c), f.believed);
    let s2 = t.child_mbrs(p);
    let h2 = spec_hull(s2);
    lemma_hull_shape(s2, t.dimension);
    lemma_common_holds(h2, me);
    let z = spec_common(h2, me);
    lemma_hull_holds(s2, t.dimension, kc);
    assert(s2[kc] == mc);
    lemma_within_transitive(mc, h2, z);
    lemma_common_holds(mc, me);
    lemma_common_least(mc, me, z);
    lemma_common_holds(f.believed, f.added);
    lemma_within_transitive(spec_common(f.believed, f.added), spec_common(mc, me), z);
    lemma_within_transitive(f.believed, spec_common(f.believed, f.added), z);
    lemma_within_transitive(f.added, spec_common(f.believed, f.added), z);
    assert forall|k: int| 0 <= k < s.len() implies within(#[trigger] s[k], z) by {
        if t.nodes[p].children[k] == id_of(lv, c) {
        } else {
            lemma_hull_holds(s2, t.dimension, k);
            assert(s[k] == s2[k]);
            lemma_within_transitive(s2[k], h2, z);
        }
    }
    lemma_hull_least(s, t.dimension, z);
    lemma_common_least(mp, f.added, z);
}

} // verus!
