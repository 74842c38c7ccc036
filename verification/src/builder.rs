//! Static build: the tree is made anew from all live data nodes by
//! recursive partitioning along the axis of greatest dispersion.

use crate::fixup::mbrs_of;
use crate::groups::{chain_ok, groups_of, lemma_chain_tail, range_mbr, ranges_of, split_groups};
use crate::levels::{least_level, least_root, node_fanout, power, tree_level};
use crate::mbr::{
    box_ordered, common_mbr, lemma_hull_push, spec_hull, volume_fits, within, Bounds, MBR,
};
use crate::model::TreeView;
use crate::node::RecordId;
use crate::obj_space::ObjSpace;
use crate::ranges::{
    ids_fit, in_range, lemma_perm_refl, lemma_perm_trans, lemma_range_compatible, perm_in,
    range_hull,
};
use vstd::prelude::*;

verus! {

/// A copy of the members between `lo` and `hi`.
pub fn copy_range(ids: &Vec<RecordId>, lo: usize, hi: usize) -> (r: Vec<RecordId>)
    requires
        lo <= hi <= ids.len(),
    ensures
        r@ == ids@.subrange(lo as int, hi as int),
{
    let mut r: Vec<RecordId> = Vec::new();
    let mut k: usize = lo;
    proof {
        assert(ids@.subrange(lo as int, lo as int) =~= Seq::<RecordId>::empty());
    }
    while k < hi
        invariant
            lo <= k <= hi <= ids.len(),
            r@ == ids@.subrange(lo as int, k as int),
        decreases hi - k,
    {
        r.push(ids[k]);
        proof {
            assert(ids@.subrange(lo as int, k + 1) =~= ids@.subrange(lo as int, k as int).push(
                ids@[k as int],
            ));
        }
        k += 1;
    }
    r
}

/// Where the build of the subtree of one node stands.
pub struct Site {
    /// The tree when the build of this subtree began.
    pub t0: TreeView,
    /// The levels of the nodes then.
    pub lv0: Seq<nat>,
    /// The list of data nodes then.
    pub ids0: Seq<RecordId>,
    /// The node whose subtree is built.
    pub i: int,
    /// The range of the list that goes under the node.
    pub lo: int,
    pub hi: int,
    /// The nodes whose children are not all in place.
    pub pending: Set<int>,
    /// A rectangle that holds all the data.
    pub bound: Seq<Bounds>,
}

/// What must hold when the build of a subtree begins.
pub open spec fn site_ok(s: Site) -> bool {
    &&& crate::partial::partial_ok(s.t0, s.lv0, s.pending, s.bound)
    &&& 0 <= s.i < s.t0.nodes.len()
    &&& s.pending.contains(s.i)
    &&& forall|j: int| s.pending.contains(j) ==> 0 <= j < s.t0.nodes.len()
    &&& s.t0.nodes[s.i].children.len() == 0
    &&& 0 <= s.lo < s.hi <= s.ids0.len()
    &&& volume_fits(s.bound)
    &&& s.ids0.no_duplicates()
    &&& ids_fit(s.t0, s.ids0, s.bound)
    &&& forall|k: int| s.lo <= k < s.hi ==> !s.t0.attached((#[trigger] s.ids0[k]).index())
}

/// The subtree of the node stands over the data nodes between `s.lo` and
/// `cur`: these are in the tree, under the node, whose children are linked
/// with it and have together the common rectangle of these data nodes;
/// outside the subtree nothing has changed.
#[verifier::opaque]
pub open spec fn progress(
    s: Site,
    t: TreeView,
    ids: Seq<RecordId>,
    lv: Seq<nat>,
    cur: int,
) -> bool {
    &&& crate::partial::partial_ok(t, lv, s.pending, s.bound)
    &&& lv.len() == t.nodes.len()
    &&& t.nodes.len() >= s.t0.nodes.len()
    &&& forall|j: int| 0 <= j < s.t0.nodes.len() ==> lv[j] == s.lv0[j]
    &&& t.same_data(s.t0)
    &&& t.root == s.t0.root
    &&& forall|j: int|
        0 <= j < s.t0.nodes.len() && j != s.i ==> #[trigger] t.nodes[j] == s.t0.nodes[j]
    &&& t.nodes[s.i].mbr == s.t0.nodes[s.i].mbr
    &&& t.nodes[s.i].parent == s.t0.nodes[s.i].parent
    &&& forall|k: int|
        0 <= k < t.nodes[s.i].children.len() ==> within(
            t.rec_mbr(#[trigger] t.nodes[s.i].children[k]),
            s.bound,
        ) && t.rec_mbr(t.nodes[s.i].children[k]).len() == s.t0.dimension
    &&& spec_hull(t.child_mbrs(s.i)) == range_hull(s.t0, ids, s.lo, cur)
    &&& perm_in(s.ids0, ids, s.lo, s.hi)
    &&& ids.no_duplicates()
    &&& ids_fit(s.t0, ids, s.bound)
    &&& forall|d: int|
        t.attached(d) <==> s.t0.attached(d) || (0 <= d < s.t0.data.len() && in_range(
            ids,
            s.lo,
            cur,
            RecordId::Data(d as usize),
        ))
    &&& forall|k: int| s.lo <= k < s.hi ==> !s.t0.attached((#[trigger] ids[k]).index())
    &&& s.lo <= cur <= s.hi
}

/// At its beginning the build stands over no data node.
pub proof fn lemma_progress_start(s: Site, ids: Seq<RecordId>)
    requires
        site_ok(s),
        perm_in(s.ids0, ids, s.lo, s.hi),
        ids.no_duplicates(),
        ids_fit(s.t0, ids, s.bound),
    ensures
        progress(s, s.t0, ids, s.lv0, s.lo),
{
    reveal(progress);
    let t = s.t0;
    assert(t.child_mbrs(s.i) =~= Seq::<Seq<Bounds>>::empty());
    assert(ids.subrange(s.lo, s.lo) =~= Seq::<RecordId>::empty());
    assert(mbrs_of(t, ids.subrange(s.lo, s.lo)) =~= Seq::<Seq<Bounds>>::empty());
    assert forall|k: int| s.lo <= k < s.hi implies !t.attached((#[trigger] ids[k]).index()) by {
        assert(in_range(ids, s.lo, s.hi, ids[k]));
        let k2 = choose|k2: int| s.lo <= k2 < s.hi && #[trigger] s.ids0[k2] == ids[k];
        assert(!t.attached(s.ids0[k2].index()));
    }
    assert forall|d: int|
        t.attached(d) <==> t.attached(d) || (0 <= d < t.data.len() && in_range(
            ids,
            s.lo,
            s.lo,
            RecordId::Data(d as usize),
        )) by {}
}

/// A leaf takes all its data nodes at once.
pub proof fn lemma_progress_leaf(s: Site)
    requires
        site_ok(s),
        s.lv0[s.i] == 0,
    ensures
        progress(
            s,
            crate::partial::with_leaf(s.t0, s.i, s.ids0.subrange(s.lo, s.hi)),
            s.ids0,
            s.lv0,
            s.hi,
        ),
        crate::partial::with_leaf(s.t0, s.i, s.ids0.subrange(s.lo, s.hi)).nodes[s.i].children.len()
            >= 1,
{
    reveal(progress);
    let t0 = s.t0;
    let g = s.ids0.subrange(s.lo, s.hi);
    let t2 = crate::partial::with_leaf(t0, s.i, g);
    assert forall|k: int| 0 <= k < g.len() implies (#[trigger] g[k]) is Data && g[k].index()
        < t0.data.len() && within(t0.data[g[k].index()].mbr, s.bound) && !t0.attached(
        g[k].index(),
    ) by {
        assert(g[k] == s.ids0[s.lo + k]);
        assert(s.ids0[s.lo + k] is Data);
    }
    assert(g.no_duplicates()) by {
        assert forall|k1: int, k2: int|
            0 <= k1 < g.len() && 0 <= k2 < g.len() && k1 != k2 implies g[k1] != g[k2] by {
            assert(g[k1] == s.ids0[s.lo + k1]);
            assert(g[k2] == s.ids0[s.lo + k2]);
        }
    }
    crate::partial::lemma_partial_leaf(t0, s.lv0, s.pending, s.bound, s.i, g);
    lemma_perm_refl(s.ids0, s.lo, s.hi);
    assert forall|k: int| 0 <= k < g.len() implies within(
        t2.rec_mbr(#[trigger] t2.nodes[s.i].children[k]),
        s.bound,
    ) && t2.rec_mbr(t2.nodes[s.i].children[k]).len() == t0.dimension by {
        assert(g[k] is Data);
        assert(t0.data_ok(g[k].index()));
    }
    assert forall|d: int|
        t2.attached(d) <==> t0.attached(d) || (0 <= d < t0.data.len() && in_range(
            s.ids0,
            s.lo,
            s.hi,
            RecordId::Data(d as usize),
        )) by {
        let y = RecordId::Data(d as usize);
        if g.contains(y) {
            let k = choose|k: int| 0 <= k < g.len() && g[k] == y;
            assert(s.ids0[s.lo + k] == y);
        }
        if in_range(s.ids0, s.lo, s.hi, y) {
            let k = choose|k: int| s.lo <= k < s.hi && #[trigger] s.ids0[k] == y;
            assert(g[k - s.lo] == y);
        }
    }
}

/// The site of the build of a child's subtree.
pub open spec fn child_site(s: Site, t: TreeView, ids: Seq<RecordId>, lv: Seq<nat>, glo: int, ghi: int) -> Site {
    Site {
        t0: crate::partial::with_child(t, lv, s.i, range_hull(s.t0, ids, glo, ghi)),
        lv0: lv.push((lv[s.i] - 1) as nat),
        ids0: ids,
        i: t.nodes.len() as int,
        lo: glo,
        hi: ghi,
        pending: s.pending.insert(t.nodes.len() as int),
        bound: s.bound,
    }
}

/// A child can be made for the next group, and its subtree built.
pub proof fn lemma_child_site(
    s: Site,
    t: TreeView,
    ids: Seq<RecordId>,
    lv: Seq<nat>,
    glo: int,
    ghi: int,
)
    requires
        site_ok(s),
        progress(s, t, ids, lv, glo),
        glo < ghi <= s.hi,
        lv[s.i] >= 1,
        t.nodes.len() < usize::MAX,
    ensures
        site_ok(child_site(s, t, ids, lv, glo, ghi)),
        child_site(s, t, ids, lv, glo, ghi).t0.same_data(s.t0),
        child_site(s, t, ids, lv, glo, ghi).t0.nodes.len() == t.nodes.len() + 1,
        crate::partial::child_id(t, lv, s.i) == crate::model::id_of(
            child_site(s, t, ids, lv, glo, ghi).lv0,
            t.nodes.len() as int,
        ),
        range_hull(s.t0, ids, glo, ghi).len() == s.t0.dimension,
{
    reveal(progress);
    let m = range_hull(s.t0, ids, glo, ghi);
    let cs = child_site(s, t, ids, lv, glo, ghi);
    let c = t.nodes.len() as int;
    lemma_range_compatible(s.t0, ids, glo, ghi, s.bound);
    crate::partial::lemma_partial_child(t, lv, s.pending, s.bound, s.i, m);
    let t2 = cs.t0;
    assert(t2.data =~= t.data);
    assert forall|k: int| 0 <= k < ids.len() implies (#[trigger] ids[k]) is Data && ids[k].index()
        < t2.data.len() && within(t2.data[ids[k].index()].mbr, s.bound) by {
        assert(ids[k] is Data);
    }
    assert forall|k: int| glo <= k < ghi implies !t2.attached((#[trigger] ids[k]).index()) by {
        let d = ids[k].index();
        assert(ids[k] is Data);
        if t2.attached(d) {
            assert(t.attached(d));
            assert(!s.t0.attached(d));
            assert(in_range(ids, s.lo, glo, RecordId::Data(d as usize)));
            let k2 = choose|k2: int|
                s.lo <= k2 < glo && #[trigger] ids[k2] == RecordId::Data(d as usize);
            assert(ids[k2] == ids[k]);
        }
    }
    assert(t2.nodes[c].children =~= Seq::<RecordId>::empty());
}

/// Once the subtree of a child is built, the build of the node stands over
/// the child's group too.
pub proof fn lemma_progress_step(
    s: Site,
    t1: TreeView,
    ids1: Seq<RecordId>,
    lv1: Seq<nat>,
    glo: int,
    ghi: int,
    t3: TreeView,
    ids3: Seq<RecordId>,
    lv3: Seq<nat>,
)
    requires
        site_ok(s),
        progress(s, t1, ids1, lv1, glo),
        glo < ghi <= s.hi,
        lv1[s.i] >= 1,
        t1.nodes.len() < usize::MAX,
        progress(child_site(s, t1, ids1, lv1, glo, ghi), t3, ids3, lv3, ghi),
        t3.nodes[t1.nodes.len() as int].children.len() >= 1,
    ensures
        progress(s, t3, ids3, lv3, ghi),
        t3.nodes[s.i].children == t1.nodes[s.i].children.push(
            crate::partial::child_id(t1, lv1, s.i),
        ),
{
    lemma_child_site(s, t1, ids1, lv1, glo, ghi);
    reveal(progress);
    let cs = child_site(s, t1, ids1, lv1, glo, ghi);
    let t0 = s.t0;
    let t2 = cs.t0;
    let c = t1.nodes.len() as int;
    let i = s.i;
    let m = range_hull(t0, ids1, glo, ghi);
    let cid = crate::partial::child_id(t1, lv1, i);
    // the child is complete
    crate::ranges::lemma_range_hull_same_data(t0, t2, ids3, glo, ghi, s.bound);
    crate::ranges::lemma_range_hull_same_data(t0, t2, ids1, glo, ghi, s.bound);
    crate::ranges::lemma_perm_keeps_fit(t0, ids1, ids3, glo, ghi, s.bound);
    crate::ranges::lemma_range_hull_perm(t0, ids1, ids3, glo, ghi, s.bound);
    assert(t3.nodes[c].mbr == m);
    assert(crate::partial::closed_ok(t3, lv3, c)) by {
        assert(t3.cover_ok(c));
    }
    crate::partial::lemma_partial_close(t3, lv3, cs.pending, s.bound, c);
    assert(cs.pending.remove(c) =~= s.pending);
    // the list
    crate::ranges::lemma_perm_widen(ids1, ids3, s.lo, s.hi, glo, ghi);
    lemma_perm_trans(s.ids0, ids1, ids3, s.lo, s.hi);
    // the rectangle of what was built so far
    assert(crate::partial::frame_ok(t1, lv1, i, s.bound));
    assert(t3.nodes[i] == t2.nodes[i]);
    assert(t3.nodes[i].children == t1.nodes[i].children.push(cid));
    assert(t3.child_mbrs(i) =~= t1.child_mbrs(i).push(m)) by {
        assert forall|k: int| 0 <= k < t1.nodes[i].children.len() implies t3.child_mbrs(i)[k]
            == t1.child_mbrs(i)[k] by {
            assert(t1.child_ok(lv1, i, k));
            let y = t1.nodes[i].children[k];
            assert(y.index() != c);
            assert(t3.nodes[y.index()] == t2.nodes[y.index()]);
            assert(t2.nodes[y.index()] == t1.nodes[y.index()]);
        }
    }
    lemma_hull_push(t1.child_mbrs(i), m);
    crate::ranges::lemma_range_hull_apart(t0, ids1, ids3, s.lo, glo, glo, ghi);
    crate::ranges::lemma_range_hull_join(t0, ids3, s.lo, glo, ghi, s.bound);
    // where the data nodes are
    lemma_range_compatible(t0, ids1, glo, ghi, s.bound);
    crate::partial::lemma_partial_child(t1, lv1, s.pending, s.bound, i, m);
    assert forall|d: int|
        t3.attached(d) <==> t0.attached(d) || (0 <= d < t0.data.len() && in_range(
            ids3,
            s.lo,
            ghi,
            RecordId::Data(d as usize),
        )) by {
        let y = RecordId::Data(d as usize);
        assert(t2.attached(d) <==> t1.attached(d));
        if in_range(ids3, s.lo, ghi, y) {
            let k = choose|k: int| s.lo <= k < ghi && #[trigger] ids3[k] == y;
            if k < glo {
                assert(ids1[k] == y);
                assert(in_range(ids1, s.lo, glo, y));
            } else {
                assert(in_range(ids3, glo, ghi, y));
            }
        }
        if in_range(ids1, s.lo, glo, y) {
            let k = choose|k: int| s.lo <= k < glo && #[trigger] ids1[k] == y;
            assert(ids3[k] == y);
        }
        if in_range(ids3, glo, ghi, y) {
            let k = choose|k: int| glo <= k < ghi && #[trigger] ids3[k] == y;
            assert(ids3[k] == y);
        }
    }
    assert forall|k: int| s.lo <= k < s.hi implies !t0.attached((#[trigger] ids3[k]).index()) by {
        assert(in_range(ids3, s.lo, s.hi, ids3[k]));
        let k2 = choose|k2: int| s.lo <= k2 < s.hi && #[trigger] s.ids0[k2] == ids3[k];
        assert(!t0.attached(s.ids0[k2].index()));
    }
    assert forall|k: int| 0 <= k < t3.nodes[i].children.len() implies within(
        t3.rec_mbr(#[trigger] t3.nodes[i].children[k]),
        s.bound,
    ) && t3.rec_mbr(t3.nodes[i].children[k]).len() == t0.dimension by {
        if k < t1.nodes[i].children.len() {
            assert(t1.child_ok(lv1, i, k));
            let y = t1.nodes[i].children[k];
            assert(t3.nodes[i].children[k] == y);
            assert(t3.nodes[y.index()] == t2.nodes[y.index()]);
            assert(t2.nodes[y.index()] == t1.nodes[y.index()]);
            assert(within(t1.rec_mbr(t1.nodes[i].children[k]), s.bound));
        } else {
            lemma_range_compatible(t0, ids1, glo, ghi, s.bound);
        }
    }
    assert forall|j: int| 0 <= j < t0.nodes.len() && j != i implies #[trigger] t3.nodes[j]
        == t0.nodes[j] by {
        assert(t3.nodes[j] == t2.nodes[j]);
        assert(t2.nodes[j] == t1.nodes[j]);
    }
    assert forall|j: int| 0 <= j < t0.nodes.len() implies lv3[j] == s.lv0[j] by {
        assert(lv3[j] == cs.lv0[j]);
    }
}

/// What a caller of the build needs of where it stands.
pub proof fn lemma_progress_facts(s: Site, t: TreeView, ids: Seq<RecordId>, lv: Seq<nat>, cur: int)
    requires
        site_ok(s),
        progress(s, t, ids, lv, cur),
    ensures
        perm_in(s.ids0, ids, s.lo, s.hi),
        ids.len() == s.ids0.len(),
        ids.no_duplicates(),
        ids_fit(s.t0, ids, s.bound),
        ids_fit(t, ids, s.bound),
        lv.len() == t.nodes.len(),
        t.nodes.len() >= s.t0.nodes.len(),
        lv[s.i] == s.lv0[s.i],
        t.same_data(s.t0),
        t.base_ok(),
        s.bound.len() == t.dimension,
        s.lo <= cur <= s.hi,
{
    reveal(progress);
    crate::ranges::lemma_range_hull_same_data(s.t0, t, ids, 0, ids.len() as int, s.bound);
}

/// The tree, the levels of its nodes and the list once the subtree of node
/// `i`, which stands `level` levels above the leaves, is built over the
/// data nodes between `lo` and `hi`: a leaf takes them all; any other node
/// gets a child for each group that `groups_of` makes of them, as many
/// groups asked for as have the power `level + 1` reach the number of data
/// nodes.
pub open spec fn built(
    t: TreeView,
    lv: Seq<nat>,
    ids: Seq<RecordId>,
    alpha: nat,
    i: int,
    level: nat,
    lo: int,
    hi: int,
) -> (TreeView, Seq<nat>, Seq<RecordId>)
    decreases level, 1nat, 0nat,
{
    if level == 0 {
        (crate::partial::with_leaf(t, i, ids.subrange(lo, hi)), lv, ids)
    } else {
        let k = least_root((hi - lo) as nat, level + 1, 1);
        let g = groups_of(t, alpha, k, level, ids, lo, hi);
        built_from(t, lv, g.0, alpha, i, level, g.1, 0)
    }
}

/// The tree, the levels and the list once node `i` has got its children
/// for the groups from the one numbered `g` on, each with the common
/// rectangle of its group and with its subtree built over the group.
pub open spec fn built_from(
    t: TreeView,
    lv: Seq<nat>,
    ids: Seq<RecordId>,
    alpha: nat,
    i: int,
    level: nat,
    ranges: Seq<(int, int)>,
    g: nat,
) -> (TreeView, Seq<nat>, Seq<RecordId>)
    decreases level, 0nat, ranges.len() - g,
{
    if g >= ranges.len() || level == 0 {
        (t, lv, ids)
    } else {
        let t2 = crate::partial::with_child(
            t,
            lv,
            i,
            range_hull(t, ids, ranges[g as int].0, ranges[g as int].1),
        );
        let sub = built(
            t2,
            lv.push((lv[i] - 1) as nat),
            ids,
            alpha,
            t.nodes.len() as int,
            (level - 1) as nat,
            ranges[g as int].0,
            ranges[g as int].1,
        );
        built_from(sub.0, sub.1, sub.2, alpha, i, level, ranges, g + 1)
    }
}

/// Builds the subtree of `node_id`, which stands `level` levels above the
/// leaves and has no children yet, over the data nodes between `lo` and
/// `hi`. A leaf takes them all as its children. Any other node gets one
/// child for each group that `split_groups` makes of them, with the group's
/// rectangle, and the child's subtree is built over the group. Returns the
/// levels of the nodes, those of the new nodes added.
pub fn build_node<ObjectT>(
    obj_space: &mut ObjSpace<ObjectT>,
    alpha: usize,
    Ghost(s): Ghost<Site>,
    node_id: RecordId,
    level: usize,
    ids: &mut Vec<RecordId>,
    lo: usize,
    hi: usize,
) -> (lv_out: Ghost<Seq<nat>>)
    requires
        site_ok(s),
        s.t0 == old(obj_space)@,
        s.ids0 == old(ids)@,
        s.i == node_id.index(),
        s.lo == lo,
        s.hi == hi,
        node_id.is_node(),
        node_id == crate::model::id_of(s.lv0, s.i),
        s.lv0[s.i] == level,
        level < usize::MAX,
        alpha <= 50,
    ensures
        progress(s, final(obj_space)@, final(ids)@, lv_out@, hi as int),
        final(obj_space)@.nodes[s.i].children.len() >= 1,
        final(obj_space).payloads() == old(obj_space).payloads(),
        (final(obj_space)@, lv_out@, final(ids)@) == built(
            s.t0,
            s.lv0,
            s.ids0,
            alpha as nat,
            s.i,
            level as nat,
            lo as int,
            hi as int,
        ),
    decreases level,
{
    let ghost t0 = obj_space@;
    let ghost i = s.i;
    let at = node_id.as_node_id();
    if level == 0 {
        let group = copy_range(ids, lo, hi);
        let ghost g = group@;
        proof {
            assert forall|k: int| 0 <= k < g.len() implies (#[trigger] g[k]) is Data && t0.resolves(
                g[k],
            ) by {
                assert(g[k] == s.ids0[lo + k]);
                assert(s.ids0[lo + k] is Data);
            }
        }
        crate::split::set_parents(obj_space, &group, node_id);
        let ghost t1 = obj_space@;
        proof {
            assert(obj_space@.nodes.len() == t0.nodes.len());
            assert(obj_space.nodes@.len() == obj_space@.nodes.len());
        }
        obj_space.nodes[at].payload = group;
        proof {
            let t2 = crate::partial::with_leaf(t0, i, g);
            assert forall|j: int| 0 <= j < t0.nodes.len() implies !crate::fixup::named(g, j) by {
                if g.contains(RecordId::Leaf(j as usize)) {
                    let k = choose|k: int| 0 <= k < g.len() && g[k] == RecordId::Leaf(j as usize);
                    assert(g[k] is Data);
                }
                if g.contains(RecordId::Internal(j as usize)) {
                    let k = choose|k: int|
                        0 <= k < g.len() && g[k] == RecordId::Internal(j as usize);
                    assert(g[k] is Data);
                }
            }
            assert forall|j: int| 0 <= j < t0.nodes.len() implies #[trigger] obj_space@.nodes[j]
                == t2.nodes[j] by {
                assert(t1.nodes[j] == t0.nodes[j]);
            }
            assert(obj_space@.nodes =~= t2.nodes);
            assert(obj_space@.data =~= t2.data);
            assert(obj_space.payloads() =~= old(obj_space).payloads());
            assert(obj_space@ == t2);
            lemma_progress_leaf(s);
        }
        return Ghost(s.lv0);
    }
    let kind = if level == 1 {
        crate::node::RecordIdKind::Leaf
    } else {
        crate::node::RecordIdKind::Internal
    };
    let ids_num = hi - lo;
    let node_child_num = node_fanout(ids_num, level + 1);
    proof {
        assert(crate::partial::partial_ok(t0, s.lv0, s.pending, s.bound));
    }
    let groups = split_groups(
        &*obj_space,
        alpha,
        node_child_num,
        level,
        ids,
        lo,
        hi,
        Ghost(s.bound),
    );
    let ghost mut lv = s.lv0;
    let mut g: usize = 0;
    let mut cur: usize = lo;
    let ghost ranges = ranges_of(groups@);
    let ghost target = built(
        s.t0,
        s.lv0,
        s.ids0,
        alpha as nat,
        s.i,
        level as nat,
        lo as int,
        hi as int,
    );
    proof {
        lemma_progress_start(s, ids@);
        assert(groups@.subrange(0, groups@.len() as int) =~= groups@);
        assert(target == built_from(
            s.t0,
            s.lv0,
            ids@,
            alpha as nat,
            s.i,
            level as nat,
            ranges,
            0,
        ));
    }
    while g < groups.len()
        invariant
            g <= groups.len(),
            groups@.len() >= 1,
            lo <= cur <= hi,
            site_ok(s),
            s.t0 == old(obj_space)@,
            s.i == node_id.index(),
            s.lo == lo,
            s.hi == hi,
            i == s.i,
            node_id.is_node(),
            node_id == crate::model::id_of(s.lv0, s.i),
            s.lv0[s.i] == level,
            alpha <= 50,
            level >= 1,
            level < usize::MAX,
            kind == (if level == 1 {
                crate::node::RecordIdKind::Leaf
            } else {
                crate::node::RecordIdKind::Internal
            }),
            progress(s, obj_space@, ids@, lv, cur as int),
            chain_ok(
                s.t0,
                ids@,
                groups@.subrange(g as int, groups@.len() as int),
                cur as int,
                hi as int,
            ),
            g < groups.len() ==> groups@[g as int].lo == cur,
            g == groups.len() ==> cur == hi,
            obj_space@.nodes[s.i].children.len() == g,
            obj_space.payloads() == old(obj_space).payloads(),
            ranges == ranges_of(groups@),
            target == built_from(
                obj_space@,
                lv,
                ids@,
                alpha as nat,
                s.i,
                level as nat,
                ranges,
                g as nat,
            ),
        decreases groups.len() - g,
    {
        let ghost t1 = obj_space@;
        let ghost lv1 = lv;
        let ghost ids1 = ids@;
        let glo = groups[g].lo;
        let ghi = groups[g].hi;
        let mbr = groups[g].mbr.clone();
        proof {
            lemma_progress_facts(s, t1, ids1, lv1, cur as int);
            lemma_perm_refl(ids1, glo as int, ghi as int);
            lemma_chain_tail(s.t0, ids1, ids1, groups@, g as int, hi as int);
        }
        let new_node_id = obj_space.make_node_with_mbr(kind, mbr);
        obj_space.add_child_raw(node_id, new_node_id);
        obj_space.set_parent_info(new_node_id, node_id);
        let ghost cs = child_site(s, t1, ids1, lv1, glo as int, ghi as int);
        proof {
            assert(obj_space@.nodes.len() == t1.nodes.len() + 1);
            assert(obj_space.nodes.len() == obj_space@.nodes.len());
            assert(new_node_id == crate::partial::child_id(t1, lv1, i));
            assert(obj_space@ == cs.t0);
            lemma_child_site(s, t1, ids1, lv1, glo as int, ghi as int);
        }
        let lv_sub = build_node(
            obj_space,
            alpha,
            Ghost(cs),
            new_node_id,
            level - 1,
            ids,
            glo,
            ghi,
        );
        proof {
            lemma_progress_facts(cs, obj_space@, ids@, lv_sub@, ghi as int);
            lemma_progress_step(
                s,
                t1,
                ids1,
                lv1,
                glo as int,
                ghi as int,
                obj_space@,
                ids@,
                lv_sub@,
            );
            lemma_chain_tail(s.t0, ids1, ids@, groups@, g as int, hi as int);
            crate::ranges::lemma_range_hull_same_data(
                s.t0,
                t1,
                ids1,
                glo as int,
                ghi as int,
                s.bound,
            );
            assert(ranges[g as int] == (glo as int, ghi as int));
            assert(built_from(t1, lv1, ids1, alpha as nat, s.i, level as nat, ranges, g as nat)
                == built_from(
                obj_space@,
                lv_sub@,
                ids@,
                alpha as nat,
                s.i,
                level as nat,
                ranges,
                (g + 1) as nat,
            ));
            lv = lv_sub@;
        }
        cur = ghi;
        g += 1;
    }
    Ghost(lv)
}

/// The common rectangle of all live data nodes.
pub open spec fn live_hull(t: TreeView) -> Seq<Bounds> {
    spec_hull(mbrs_of(t, crate::model::live_ids(t.data)))
}

/// The live data nodes can be read, and lie inside their common rectangle.
pub proof fn lemma_live_fit(t: TreeView)
    requires
        t.base_ok(),
    ensures
        ids_fit(t, crate::model::live_ids(t.data), live_hull(t)),
        crate::model::live_ids(t.data).no_duplicates(),
        crate::model::live_ids(t.data).len() == t.live_num,
        live_hull(t) == range_hull(
            t,
            crate::model::live_ids(t.data),
            0,
            crate::model::live_ids(t.data).len() as int,
        ),
        t.live_num > 0 ==> live_hull(t).len() == t.dimension,
        box_ordered(live_hull(t)),
{
    let ids = crate::model::live_ids(t.data);
    crate::model::lemma_live_ids(t.data);
    let ms = mbrs_of(t, ids);
    assert(ids.subrange(0, ids.len() as int) =~= ids);
    assert forall|k: int| 0 <= k < ms.len() implies ((#[trigger] ms[k]).len() == 0 || ms[k].len()
        == t.dimension) && box_ordered(ms[k]) by {
        assert(ids[k] is Data);
        assert(t.data_ok(ids[k].index()));
    }
    crate::mbr::lemma_hull_shape(ms, t.dimension);
    assert forall|k: int| 0 <= k < ids.len() implies (#[trigger] ids[k]) is Data && ids[k].index()
        < t.data.len() && within(t.data[ids[k].index()].mbr, live_hull(t)) by {
        crate::mbr::lemma_hull_holds(ms, t.dimension, k);
        assert(ms[k] == t.data[ids[k].index()].mbr);
    }
    if t.live_num > 0 {
        assert(ids[0] is Data);
        assert(t.data_ok(ids[0].index()));
        assert(ms[0].len() == t.dimension);
    }
}

/// The common rectangle of the children of `node_id`.
pub fn children_mbr<ObjectT>(obj_space: &ObjSpace<ObjectT>, node_id: RecordId) -> (r: MBR)
    requires
        node_id.is_node(),
        node_id.index() < obj_space@.nodes.len(),
        forall|k: int|
            0 <= k < obj_space@.nodes[node_id.index()].children.len() ==> obj_space@.resolves(
                #[trigger] obj_space@.nodes[node_id.index()].children[k],
            ) && obj_space@.rec_mbr(obj_space@.nodes[node_id.index()].children[k]).len()
                == obj_space@.dimension,
    ensures
        r@ == spec_hull(obj_space@.child_mbrs(node_id.index())),
{
    let ghost t = obj_space@;
    let ghost i = node_id.index();
    let ghost all = t.child_mbrs(i);
    let node = obj_space.get_node(node_id);
    let mut common = MBR::undefined();
    let mut k: usize = 0;
    proof {
        assert(all.take(0) =~= Seq::<Seq<Bounds>>::empty());
    }
    while k < node.payload.len()
        invariant
            k <= node.payload.len(),
            t == obj_space@,
            i == node_id.index(),
            0 <= i < t.nodes.len(),
            node.payload@ == t.nodes[i].children,
            all == t.child_mbrs(i),
            forall|k: int|
                0 <= k < t.nodes[i].children.len() ==> t.resolves(
                    #[trigger] t.nodes[i].children[k],
                ) && t.rec_mbr(t.nodes[i].children[k]).len() == t.dimension,
            common@ == spec_hull(all.take(k as int)),
        decreases node.payload.len() - k,
    {
        proof {
            let prefix = all.take(k as int);
            assert forall|j: int| 0 <= j < prefix.len() implies (#[trigger] prefix[j]).len() == 0
                || prefix[j].len() == t.dimension by {
                assert(prefix[j] == all[j]);
                assert(t.resolves(t.nodes[i].children[j]));
            }
            crate::mbr::lemma_hull_shape(prefix, t.dimension);
            assert(t.resolves(t.nodes[i].children[k as int]));
            assert(all.take(k + 1) =~= prefix.push(all[k as int]));
            lemma_hull_push(prefix, all[k as int]);
        }
        common = common_mbr(&common, obj_space.get_mbr(node.payload[k]));
        k += 1;
    }
    proof {
        assert(all.take(node.payload.len() as int) =~= all);
    }
    common
}

/// `level` is the least height at which nodes of at most `max_records`
/// children hold `n` data nodes.
pub open spec fn is_level(max_records: nat, n: nat, level: nat) -> bool {
    &&& level >= 1
    &&& n <= power(max_records, level)
    &&& level > 1 ==> power(max_records, (level - 1) as nat) < n
}

/// The tree `after` has the height that the build gives the live data of
/// `before`: all its leaves stand that many levels below the root, the root
/// counted.
pub open spec fn height_of_build(before: TreeView, after: TreeView) -> bool {
    exists|lv: Seq<nat>| #[trigger]
        after.wf_lv(lv) && is_level(
            before.max_records,
            before.live_num,
            lv[after.root.index()] + 1,
        )
}

/// What `rebuild` leaves: the tree is well formed, of the least height
/// that holds the live data; it holds the live data nodes and no other,
/// and the root has their common rectangle.
pub open spec fn rebuilt(before: TreeView, after: TreeView) -> bool {
    &&& after.wf()
    &&& height_of_build(before, after)
    &&& after.same_data(before)
    &&& forall|d: int| after.attached(d) <==> after.is_live(d)
    &&& after.nodes[after.root.index()].mbr == live_hull(before)
}

/// The tree that `rebuild` makes of a space with live data: one root, a
/// leaf where the height is 1, with the subtree built over all live data
/// nodes in the order of the arena, and with the common rectangle of its
/// children.
pub open spec fn rebuilt_tree(before: TreeView, alpha: nat) -> TreeView {
    let level = least_level(before.max_records, before.live_num, 1);
    let root = if level == 1 {
        RecordId::Leaf(0)
    } else {
        RecordId::Internal(0)
    };
    let cleared = (TreeView {
        live_num: before.live_num,
        ..TreeView::fresh(
            before.data,
            before.dimension,
            before.min_records,
            before.max_records,
        )
    }).set_root(root);
    let ids = crate::model::live_ids(before.data);
    let b = built(
        cleared,
        seq![(level - 1) as nat],
        ids,
        alpha,
        0,
        (level - 1) as nat,
        0,
        ids.len() as int,
    );
    b.0.set_node_mbr(0, spec_hull(b.0.child_mbrs(0)))
}

/// The tree after the build, closed by the rectangle of its root.
pub proof fn lemma_rebuilt(
    before: TreeView,
    s: Site,
    t: TreeView,
    ids: Seq<RecordId>,
    lv: Seq<nat>,
)
    requires
        before.base_ok(),
        before.live_num > 0,
        site_ok(s),
        s.t0.same_data(before),
        s.t0.nodes.len() == 1,
        s.t0.root.index() == 0,
        s.i == 0,
        s.lo == 0,
        s.hi == s.ids0.len(),
        s.ids0 == crate::model::live_ids(before.data),
        s.bound == live_hull(before),
        s.pending == Set::<int>::empty().insert(0),
        progress(s, t, ids, lv, s.hi),
        t.nodes[0].children.len() >= 1,
        is_level(before.max_records, before.live_num, s.lv0[0] + 1),
    ensures
        rebuilt(before, t.set_node_mbr(0, spec_hull(t.child_mbrs(0)))),
        forall|k: int|
            0 <= k < t.nodes[0].children.len() ==> t.resolves(#[trigger] t.nodes[0].children[k])
                && t.rec_mbr(t.nodes[0].children[k]).len() == t.dimension,
        t.root.is_node(),
        t.root.index() == 0,
        t.nodes.len() >= 1,
{
    reveal(progress);
    let t2 = t.set_node_mbr(0, spec_hull(t.child_mbrs(0)));
    crate::partial::lemma_partial_root(t, lv, s.bound);
    assert(t2.wf_lv(lv) && is_level(
        before.max_records,
        before.live_num,
        lv[t2.root.index()] + 1,
    ));
    lemma_live_fit(before);
    crate::model::lemma_live_ids(before.data);
    assert(crate::partial::frame_ok(t, lv, 0, s.bound));
    assert forall|k: int| 0 <= k < t.nodes[0].children.len() implies t.resolves(
        #[trigger] t.nodes[0].children[k],
    ) && t.rec_mbr(t.nodes[0].children[k]).len() == t.dimension by {
        assert(t.child_ok(lv, 0, k));
    }
    // the data nodes in the tree are the live ones
    assert(t2.data =~= t.data);
    assert forall|d: int| t2.attached(d) <==> t2.is_live(d) by {
        let y = RecordId::Data(d as usize);
        assert(t2.attached(d) <==> t.attached(d));
        assert(!s.t0.attached(d)) by {
            if s.t0.attached(d) {
                assert(s.t0.data[d].parent.index() == 0);
            }
        }
        assert(t.attached(d) <==> (0 <= d < s.t0.data.len() && in_range(ids, s.lo, s.hi, y)));
        assert(in_range(ids, s.lo, s.hi, y) <==> in_range(s.ids0, s.lo, s.hi, y));
        if 0 <= d < before.data.len() {
            assert(t2.data[d].removed == before.data[d].removed);
            if !before.data[d].removed {
                assert(s.ids0.contains(y));
                let k = choose|k: int| 0 <= k < s.ids0.len() && s.ids0[k] == y;
                assert(s.ids0[k] == y);
                assert(in_range(s.ids0, s.lo, s.hi, y));
            }
            if in_range(s.ids0, s.lo, s.hi, y) {
                let k = choose|k: int| s.lo <= k < s.hi && #[trigger] s.ids0[k] == y;
                assert(!before.data[s.ids0[k].index()].removed);
            }
        }
    }
    // the rectangle of the root
    crate::ranges::lemma_range_hull_perm(s.t0, s.ids0, ids, s.lo, s.hi, s.bound);
    crate::ranges::lemma_range_hull_same_data(before, s.t0, s.ids0, s.lo, s.hi, s.bound);
}

/// Whether `rebuild_obj_space` may be called: decides whether the volume of
/// the common rectangle of the live data fits in `i64`.
pub fn can_rebuild_obj_space<ObjectT>(obj_space: &ObjSpace<ObjectT>) -> (r: bool)
    requires
        obj_space@.base_ok(),
    ensures
        r == volume_fits(live_hull(obj_space@)),
{
    proof {
        lemma_live_fit(obj_space@);
    }
    if obj_space.is_empty() {
        proof {
            assert(mbrs_of(obj_space@, crate::model::live_ids(obj_space@.data)) =~= Seq::<
                Seq<Bounds>,
            >::empty());
        }
        return true;
    }
    let ids = obj_space.iter_data_ids();
    let hull = range_mbr(obj_space, &ids, 0, ids.len(), Ghost(live_hull(obj_space@)));
    hull.fits()
}

/// Makes the tree anew over all live data nodes. The height is the least
/// that lets `max_records` children per node hold them all; every node gets
/// as many children as spread them evenly over the levels below; the data
/// nodes are grouped by `split_groups`, with `alpha` hundredths as the
/// quantile. Where no data node is live, nothing is done.
pub fn rebuild_obj_space<ObjectT>(obj_space: &mut ObjSpace<ObjectT>, alpha: usize)
    requires
        old(obj_space)@.base_ok(),
        alpha <= 50,
        volume_fits(live_hull(old(obj_space)@)),
    ensures
        old(obj_space)@.live_num == 0 ==> final(obj_space)@ == old(obj_space)@,
        old(obj_space)@.live_num > 0 ==> final(obj_space)@ == rebuilt_tree(
            old(obj_space)@,
            alpha as nat,
        ),
        old(obj_space)@.live_num > 0 ==> rebuilt(old(obj_space)@, final(obj_space)@),
        final(obj_space).payloads() == old(obj_space).payloads(),
{
    if obj_space.is_empty() {
        return ;
    }
    let ghost before = obj_space@;
    obj_space.clear_tree_structure();
    let data_num = obj_space.data_num();
    let level = tree_level(obj_space.max_records, data_num);
    let kind = if level == 1 {
        crate::node::RecordIdKind::Leaf
    } else {
        crate::node::RecordIdKind::Internal
    };
    let root_id = RecordId::from_node_id(0, kind);
    obj_space.set_root_id(root_id);
    let mut ids = obj_space.iter_data_ids();
    let ghost t0 = obj_space@;
    let ghost lv0 = seq![(level - 1) as nat];
    let ghost bound = live_hull(before);
    let ghost s = Site {
        t0,
        lv0,
        ids0: ids@,
        i: 0,
        lo: 0,
        hi: ids@.len() as int,
        pending: Set::<int>::empty().insert(0),
        bound,
    };
    proof {
        lemma_live_fit(before);
        assert(t0.data =~= before.data);
        assert(t0.same_data(before));
        crate::model::lemma_base_kept(before, t0);
        crate::ranges::lemma_range_hull_same_data(before, t0, ids@, 0, ids@.len() as int, bound);
        assert(t0.child_mbrs(0) =~= Seq::<Seq<Bounds>>::empty());
        assert(crate::partial::frame_ok(t0, lv0, 0, bound));
        assert forall|d: int| !t0.attached(d) by {}
        assert(crate::partial::partial_ok(t0, lv0, s.pending, bound));
        assert(site_ok(s));
    }
    let n = ids.len();
    let lv = build_node(obj_space, alpha, Ghost(s), root_id, level - 1, &mut ids, 0, n);
    let ghost t = obj_space@;
    proof {
        lemma_rebuilt(before, s, t, ids@, lv@);
    }
    let root_mbr = children_mbr(&*obj_space, root_id);
    obj_space.set_mbr(root_id, root_mbr);
}

} // verus!
