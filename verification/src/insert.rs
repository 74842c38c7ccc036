//! Dynamic insertion: the choice of the subtree, the descent to a leaf, and
//! the mending of the tree from that leaf up to the root.

use crate::fixup::{
    grown, lemma_grow_root, lemma_leaf_bind, lemma_mid_done, lemma_mid_split_pre, lemma_up_bind,
    lemma_up_plain, lemma_wf_local, lemma_wf_split_pre, local_ok, mid_ok, Fix,
};
use crate::mbr::{
    box_ordered, common_mbr, lemma_common_holds, lemma_common_least, lemma_volume_monotone,
    lemma_within_both, spec_common, spec_delta, spec_volume, volume_fits, within, Bounds, MBR,
};
use crate::model::{id_of, TreeView};
use crate::node::{RecordId, RecordIdKind};
use crate::obj_space::ObjSpace;
use crate::fixup::split_state;
use crate::split::{readable, split_node, split_parts};
use vstd::prelude::*;

verus! {

/// Child `cand` of node `i` is a better home for `m` than child `cur`: its
/// rectangle grows less by `m`, or as much and is the smaller one.
pub open spec fn better(t: TreeView, i: int, m: Seq<Bounds>, cand: int, cur: int) -> bool {
    let a = t.rec_mbr(t.nodes[i].children[cand]);
    let b = t.rec_mbr(t.nodes[i].children[cur]);
    spec_delta(a, m) < spec_delta(b, m) || (spec_delta(a, m) == spec_delta(b, m) && spec_volume(a)
        < spec_volume(b))
}

/// Among the first `n` children of node `i`, the first than which none is
/// better for `m`.
pub open spec fn best_child(t: TreeView, i: int, m: Seq<Bounds>, n: int) -> int
    decreases n,
{
    if n <= 1 {
        0
    } else {
        let j = best_child(t, i, m, n - 1);
        if better(t, i, m, n - 1, j) {
            n - 1
        } else {
            j
        }
    }
}

/// The best child is one of the children.
pub proof fn lemma_best_child_in_range(t: TreeView, i: int, m: Seq<Bounds>, n: int)
    requires
        1 <= n,
    ensures
        0 <= best_child(t, i, m, n) < n,
    decreases n,
{
    if n > 1 {
        lemma_best_child_in_range(t, i, m, n - 1);
    }
}

/// The leaf under which a record with rectangle `m` is to go: from `id`
/// down, at every node the best child, until a leaf is met or `fuel` levels
/// were passed.
pub open spec fn leaf_for(t: TreeView, m: Seq<Bounds>, id: RecordId, fuel: nat) -> RecordId
    decreases fuel,
{
    if id is Leaf || fuel == 0 {
        id
    } else {
        let i = id.index();
        leaf_for(
            t,
            m,
            t.nodes[i].children[best_child(t, i, m, t.nodes[i].children.len() as int)],
            (fuel - 1) as nat,
        )
    }
}

/// The leaf that an insertion of a record with rectangle `m` goes to is
/// `leaf`: the descent from the root by best children meets it.
pub open spec fn chosen_leaf(t: TreeView, m: Seq<Bounds>, leaf: RecordId) -> bool {
    leaf is Leaf && exists|fuel: nat| leaf_for(t, m, t.root, fuel) == leaf
}

/// Chooses the child of `node_id` under which a record with rectangle `mbr`
/// is to go: the one whose rectangle grows least, the smallest such, the
/// first of these. Returns its index.
pub fn choose_subtree<ObjectT>(
    obj_space: &ObjSpace<ObjectT>,
    node_id: RecordId,
    mbr: &MBR,
    Ghost(bound): Ghost<Seq<Bounds>>,
) -> (k: usize)
    requires
        node_id.is_node(),
        node_id.index() < obj_space@.nodes.len(),
        obj_space@.nodes[node_id.index()].children.len() >= 1,
        readable(obj_space@, obj_space@.nodes[node_id.index()].children, bound),
        mbr@.len() == obj_space@.dimension,
        box_ordered(mbr@),
        within(mbr@, bound),
        bound.len() == obj_space@.dimension,
        volume_fits(bound),
    ensures
        k == best_child(
            obj_space@,
            node_id.index(),
            mbr@,
            obj_space@.nodes[node_id.index()].children.len() as int,
        ),
        k < obj_space@.nodes[node_id.index()].children.len(),
{
    let ghost t = obj_space@;
    let ghost i = node_id.index();
    let node = obj_space.get_node(node_id);
    let n = node.payload.len();
    let mut best: usize = 0;
    let mut best_delta: i64 = 0;
    let mut best_volume: i64 = 0;
    let mut k: usize = 0;
    while k < n
        invariant
            k <= n,
            t == obj_space@,
            n == t.nodes[i].children.len(),
            n >= 1,
            node.payload@ == t.nodes[i].children,
            readable(t, t.nodes[i].children, bound),
            mbr@.len() == t.dimension,
            box_ordered(mbr@),
            within(mbr@, bound),
            bound.len() == t.dimension,
            volume_fits(bound),
            k > 0 ==> best == best_child(t, i, mbr@, k as int),
            k > 0 ==> best < k,
            k > 0 ==> best_delta == spec_delta(t.rec_mbr(t.nodes[i].children[best as int]), mbr@),
            k > 0 ==> best_volume == spec_volume(t.rec_mbr(t.nodes[i].children[best as int])),
        decreases n - k,
    {
        let child_id = node.payload[k];
        proof {
            assert(t.resolves(t.nodes[i].children[k as int]));
        }
        let child_mbr = obj_space.get_mbr(child_id);
        let common = common_mbr(child_mbr, mbr);
        proof {
            lemma_common_holds(child_mbr@, mbr@);
            lemma_common_least(child_mbr@, mbr@, bound);
            lemma_volume_monotone(child_mbr@, bound);
            lemma_volume_monotone(common@, bound);
        }
        let volume = child_mbr.volume();
        let delta = common.volume() - volume;
        if k == 0 || delta < best_delta || (delta == best_delta && volume < best_volume) {
            best = k;
            best_delta = delta;
            best_volume = volume;
        }
        k += 1;
    }
    best
}

/// Descends from the root to the leaf under which a record with rectangle
/// `mbr` is to go, by `choose_subtree` at every node on the way.
pub fn select_node<ObjectT>(
    obj_space: &ObjSpace<ObjectT>,
    Ghost(lv): Ghost<Seq<nat>>,
    mbr: &MBR,
    Ghost(bound): Ghost<Seq<Bounds>>,
) -> (node_id: RecordId)
    requires
        obj_space@.wf_lv(lv),
        mbr@.len() == obj_space@.dimension,
        box_ordered(mbr@),
        within(mbr@, bound),
        within(obj_space@.nodes[obj_space@.root.index()].mbr, bound),
        bound.len() == obj_space@.dimension,
        volume_fits(bound),
    ensures
        node_id is Leaf,
        node_id.index() < obj_space@.nodes.len(),
        lv[node_id.index()] == 0,
        node_id == leaf_for(obj_space@, mbr@, obj_space@.root, lv[obj_space@.root.index()]),
        chosen_leaf(obj_space@, mbr@, node_id),
{
    let ghost t = obj_space@;
    let mut node_id = obj_space.root_id;
    proof {
        lemma_wf_local(t, lv, bound);
    }
    loop
        invariant
            t == obj_space@,
            t.wf_lv(lv),
            leaf_for(t, mbr@, t.root, lv[t.root.index()]) == leaf_for(
                t,
                mbr@,
                node_id,
                lv[node_id.index()],
            ),
            forall|i: int| 0 <= i < t.nodes.len() ==> local_ok(t, lv, i, bound),
            node_id.is_node(),
            node_id.index() < t.nodes.len(),
            node_id == id_of(lv, node_id.index()),
            mbr@.len() == t.dimension,
            box_ordered(mbr@),
            within(mbr@, bound),
            bound.len() == t.dimension,
            volume_fits(bound),
        ensures
            node_id is Leaf,
            node_id.index() < t.nodes.len(),
            lv[node_id.index()] == 0,
            node_id == leaf_for(t, mbr@, t.root, lv[t.root.index()]),
        decreases lv[node_id.index()],
    {
        match node_id {
            RecordId::Leaf(_) => {
                break ;
            },
            _ => {},
        }
        let ghost i = node_id.index();
        proof {
            assert(local_ok(t, lv, i, bound));
            assert forall|k: int| 0 <= k < t.nodes[i].children.len() implies t.resolves(
                #[trigger] t.nodes[i].children[k],
            ) && t.rec_mbr(t.nodes[i].children[k]).len() == t.dimension && box_ordered(
                t.rec_mbr(t.nodes[i].children[k]),
            ) && within(t.rec_mbr(t.nodes[i].children[k]), bound) by {
                assert(t.child_ok(lv, i, k));
                assert(local_ok(t, lv, t.nodes[i].children[k].index(), bound));
                assert(t.up_ok(lv, t.nodes[i].children[k].index()));
            }
        }
        let k = choose_subtree(obj_space, node_id, mbr, Ghost(bound));
        proof {
            assert(t.child_ok(lv, i, k as int));
        }
        node_id = obj_space.get_node(node_id).payload[k];
    }
    node_id
}

/// Both trees have the same nodes with the same children and parents, the
/// same data nodes and the same root: they differ in the rectangles of
/// their nodes at most.
pub open spec fn same_links(a: TreeView, b: TreeView) -> bool {
    &&& a.nodes.len() == b.nodes.len()
    &&& a.root == b.root
    &&& a.data == b.data
    &&& forall|j: int|
        0 <= j < a.nodes.len() ==> (#[trigger] b.nodes[j]).children == a.nodes[j].children
            && b.nodes[j].parent == a.nodes[j].parent
}

/// The tree once it is mended from node `c` up to the root, `steps` levels
/// above, with the sibling `e` of `c` pending: at every level the parent's
/// rectangle is widened by that of the node below; a pending sibling
/// becomes the parent's last child where the parent has room, else the
/// parent is split and its new sibling is pending; at the root, a pending
/// sibling and the root become the children of a new root.
pub open spec fn mended(t: TreeView, lv: Seq<nat>, c: int, e: Option<int>, steps: nat) -> TreeView
    decreases steps,
{
    if steps == 0 {
        match e {
            None => t,
            Some(e) => grown(t, lv, c, e),
        }
    } else {
        let p = t.nodes[c].parent.index();
        let widened = t.set_node_mbr(p, spec_common(t.nodes[p].mbr, t.nodes[c].mbr));
        match e {
            None => mended(widened, lv, p, None, (steps - 1) as nat),
            Some(e) => if t.nodes[p].children.len() < t.max_records {
                mended(
                    widened.add_child(p, id_of(lv, e)).set_node_parent(
                        e,
                        RecordId::Internal(p as usize),
                    ),
                    lv,
                    p,
                    None,
                    (steps - 1) as nat,
                )
            } else {
                let parts = split_parts(t, t.nodes[p].children.push(id_of(lv, e)));
                mended(
                    split_state(t, lv, p, parts.0, parts.1),
                    lv.push(lv[p]),
                    p,
                    Some(t.nodes.len() as int),
                    (steps - 1) as nat,
                )
            },
        }
    }
}

/// The tree once the data node `d`, which is in the arena and in no leaf,
/// is inserted: it goes to the leaf that the descent by best children
/// leads to, as its last child where the leaf has room, by a split of the
/// leaf where it is full, and the tree is mended from there.
pub open spec fn inserted(t: TreeView, lv: Seq<nat>, d: int) -> TreeView {
    let x = RecordId::Data(d as usize);
    let height = lv[t.root.index()];
    let leaf = leaf_for(t, t.data[d].mbr, t.root, height);
    let l = leaf.index();
    if t.nodes[l].children.len() < t.max_records {
        mended(t.add_child(l, x).set_data_parent(d, leaf), lv, l, None, height)
    } else {
        let parts = split_parts(t, t.nodes[l].children.push(x));
        mended(
            split_state(t, lv, l, parts.0, parts.1),
            lv.push(lv[l]),
            l,
            Some(t.nodes.len() as int),
            height,
        )
    }
}

/// Mends the tree from `node_id` up to the root: widens the rectangle of
/// each ancestor, hands a pending sibling to the parent, which is split
/// where it is full, and gives the tree a new root where the old one got a
/// sibling.
pub fn fix_tree<ObjectT>(
    obj_space: &mut ObjSpace<ObjectT>,
    Ghost(lv0): Ghost<Seq<nat>>,
    Ghost(f0): Ghost<Fix>,
    Ghost(r0): Ghost<Seq<Bounds>>,
    node_id: RecordId,
    extra_node_id: Option<RecordId>,
)
    requires
        mid_ok(old(obj_space)@, lv0, f0),
        node_id == id_of(lv0, f0.c),
        extra_node_id is Some <==> f0.e is Some,
        extra_node_id is Some ==> extra_node_id.unwrap() == id_of(lv0, f0.e.unwrap()),
        volume_fits(f0.bound),
        f0.bound == spec_common(r0, f0.added),
        f0.c == old(obj_space)@.root.index() ==> f0.believed == r0,
        f0.c != old(obj_space)@.root.index() ==> old(obj_space)@.nodes[old(
            obj_space,
        )@.root.index()].mbr == r0,
    ensures
        final(obj_space)@.wf(),
        final(obj_space)@.same_data(old(obj_space)@),
        final(obj_space).payloads() == old(obj_space).payloads(),
        f0.fan ==> final(obj_space)@.fanout_ok(),
        forall|d: int| #[trigger] f0.keep.contains(d) ==> final(obj_space)@.attached(d),
        final(obj_space)@.nodes[final(obj_space)@.root.index()].mbr == spec_common(r0, f0.added),
        f0.e is None ==> same_links(old(obj_space)@, final(obj_space)@),
        final(obj_space)@ == mended(
            old(obj_space)@,
            lv0,
            f0.c,
            f0.e,
            (lv0[old(obj_space)@.root.index()] - lv0[f0.c]) as nat,
        ),
{
    let ghost mut lv = lv0;
    let ghost mut f = f0;
    let ghost target = mended(
        obj_space@,
        lv0,
        f0.c,
        f0.e,
        (lv0[obj_space@.root.index()] - lv0[f0.c]) as nat,
    );
    proof {
        assert(local_ok(obj_space@, lv0, f0.c, f0.bound));
    }
    let mut node_id = node_id;
    let mut extra_node_id = extra_node_id;
    let max_records = obj_space.max_records;
    loop
        invariant
            mid_ok(obj_space@, lv, f),
            node_id == id_of(lv, f.c),
            extra_node_id is Some <==> f.e is Some,
            extra_node_id is Some ==> extra_node_id.unwrap() == id_of(lv, f.e.unwrap()),
            volume_fits(f.bound),
            f.bound == f0.bound,
            f.added == f0.added,
            f.fan == f0.fan,
            f.keep == f0.keep,
            f.bound == spec_common(r0, f.added),
            f.c == obj_space@.root.index() ==> f.believed == r0,
            f.c != obj_space@.root.index() ==> obj_space@.nodes[obj_space@.root.index()].mbr == r0,
            obj_space@.same_data(old(obj_space)@),
            obj_space.payloads() == old(obj_space).payloads(),
            max_records == obj_space@.max_records,
            f0.e is None ==> f.e is None && same_links(old(obj_space)@, obj_space@),
            target == mended(
                obj_space@,
                lv,
                f.c,
                f.e,
                (lv[obj_space@.root.index()] - lv[f.c]) as nat,
            ),
        ensures
            mid_ok(obj_space@, lv, f),
            f0.e is None ==> f.e is None && same_links(old(obj_space)@, obj_space@),
            target == mended(obj_space@, lv, f.c, f.e, 0),
            f.c == obj_space@.root.index(),
            node_id == id_of(lv, f.c),
            extra_node_id is Some <==> f.e is Some,
            extra_node_id is Some ==> extra_node_id.unwrap() == id_of(lv, f.e.unwrap()),
            f.bound == f0.bound,
            f.added == f0.added,
            f.fan == f0.fan,
            f.keep == f0.keep,
            f.bound == spec_common(r0, f.added),
            f.believed == r0,
            obj_space@.same_data(old(obj_space)@),
            obj_space.payloads() == old(obj_space).payloads(),
        decreases lv[obj_space@.root.index()] - lv[f.c],
    {
        let ghost t = obj_space@;
        let ghost c = f.c;
        proof {
            assert(local_ok(t, lv, c, f.bound));
            if c != t.root.index() {
                assert(t.up_ok(lv, c));
            }
        }
        let parent_id = obj_space.get_node(node_id).parent_id;
        match parent_id {
            RecordId::Root => {
                break ;
            },
            _ => {},
        }
        let ghost p = parent_id.index();
        let ghost steps = (lv[t.root.index()] - lv[c]) as nat;
        proof {
            assert(local_ok(t, lv, p, f.bound));
            assert(parent_id == id_of(lv, p));
            assert(steps >= 1);
        }
        let room = obj_space.get_node(parent_id).payload.len() < max_records;
        match extra_node_id {
            None => {
                let fixed = common_mbr(obj_space.get_mbr(parent_id), obj_space.get_mbr(node_id));
                obj_space.set_mbr(parent_id, fixed);
                proof {
                    lemma_up_plain(t, lv, f);
                    f = Fix { c: p, believed: t.nodes[p].mbr, ..f };
                }
            },
            Some(new_node_id) => {
                let ghost e = f.e.unwrap();
                proof {
                    assert(local_ok(t, lv, e, f.bound));
                }
                if room {
                    let fixed = common_mbr(
                        obj_space.get_mbr(parent_id),
                        obj_space.get_mbr(node_id),
                    );
                    obj_space.set_mbr(parent_id, fixed);
                    obj_space.add_child(parent_id, new_node_id);
                    obj_space.set_parent_info(new_node_id, parent_id);
                    extra_node_id = None;
                    proof {
                        lemma_up_bind(t, lv, f);
                        f = Fix { c: p, e: None, believed: t.nodes[p].mbr, ..f };
                    }
                } else {
                    proof {
                        lemma_mid_split_pre(t, lv, f);
                        if f.fan {
                            assert(t.fanout_ok_at(p));
                        }
                    }
                    let sibling = split_node(
                        obj_space,
                        Ghost(lv),
                        Ghost(f),
                        parent_id,
                        new_node_id,
                    );
                    extra_node_id = Some(sibling);
                    proof {
                        f = Fix {
                            c: p,
                            e: Some(t.nodes.len() as int),
                            believed: t.nodes[p].mbr,
                            ..f
                        };
                        lv = lv.push(lv[p]);
                        assert(lv[obj_space@.root.index()] - lv[p] == steps - 1);
                    }
                }
            },
        }
        node_id = parent_id;
    }
    match extra_node_id {
        None => {
            proof {
                lemma_mid_done(obj_space@, lv, f);
                lemma_within_both(
                    obj_space@.nodes[obj_space@.root.index()].mbr,
                    spec_common(r0, f.added),
                );
            }
        },
        Some(sibling) => {
            let ghost t = obj_space@;
            let ghost e = f.e.unwrap();
            proof {
                assert(local_ok(t, lv, f.c, f.bound));
                assert(local_ok(t, lv, e, f.bound));
            }
            let new_root_id = obj_space.make_node(RecordIdKind::Internal);
            obj_space.add_child(new_root_id, node_id);
            obj_space.set_parent_info(node_id, new_root_id);
            obj_space.add_child(new_root_id, sibling);
            obj_space.set_parent_info(sibling, new_root_id);
            obj_space.set_root_id(new_root_id);
            proof {
                assert(new_root_id == RecordId::Internal(t.nodes.len() as usize));
                assert(obj_space@ == grown(t, lv, f.c, e));
                assert(obj_space@.nodes.len() == t.nodes.len() + 1);
                assert(obj_space.nodes.len() == obj_space@.nodes.len());
                lemma_grow_root(t, lv, f);
                lemma_within_both(
                    obj_space@.nodes[obj_space@.root.index()].mbr,
                    spec_common(r0, f.added),
                );
                assert(obj_space@.wf_lv(lv.push(lv[f.c] + 1)));
            }
        },
    }
}

/// The data node `x` became the last child of `leaf`, and nothing else
/// changed in the tree but rectangles.
pub open spec fn placed_in_leaf(before: TreeView, after: TreeView, leaf: RecordId, x: RecordId) -> bool {
    &&& after.nodes.len() == before.nodes.len()
    &&& after.root == before.root
    &&& after.data[x.index()].parent == leaf
    &&& after.nodes[leaf.index()].children == before.nodes[leaf.index()].children.push(x)
    &&& forall|j: int|
        0 <= j < before.nodes.len() && j != leaf.index() ==> (#[trigger] after.nodes[j]).children
            == before.nodes[j].children
    &&& forall|j: int|
        0 <= j < before.nodes.len() ==> (#[trigger] after.nodes[j]).parent
            == before.nodes[j].parent
    &&& forall|d: int|
        0 <= d < before.data.len() && d != x.index() ==> (#[trigger] after.data[d])
            == before.data[d]
}

/// The insertion of the data node `x` went to `leaf`: the descent by best
/// children leads there, and where the leaf had room, `x` became its last
/// child.
pub open spec fn went_to(before: TreeView, after: TreeView, leaf: RecordId, x: RecordId) -> bool {
    &&& chosen_leaf(before, before.data[x.index()].mbr, leaf)
    &&& leaf.index() < before.nodes.len()
    &&& before.nodes[leaf.index()].children.len() < before.max_records ==> placed_in_leaf(
        before,
        after,
        leaf,
        x,
    )
}

/// Puts into the tree the data node that `insert_node_id` names, which no
/// leaf holds yet. It goes to the leaf that the descent by best children
/// leads to: as its last child where the leaf has room, by a split of the
/// leaf where it is full.
pub fn insert_helper<ObjectT>(obj_space: &mut ObjSpace<ObjectT>, insert_node_id: RecordId)
    requires
        old(obj_space)@.wf(),
        insert_node_id is Data,
        insert_node_id.index() < old(obj_space)@.data.len(),
        old(obj_space)@.data[insert_node_id.index()].parent is Root,
        volume_fits(
            spec_common(
                old(obj_space)@.nodes[old(obj_space)@.root.index()].mbr,
                old(obj_space)@.data[insert_node_id.index()].mbr,
            ),
        ),
    ensures
        final(obj_space)@.wf(),
        final(obj_space)@.same_data(old(obj_space)@),
        final(obj_space).payloads() == old(obj_space).payloads(),
        final(obj_space)@.attached(insert_node_id.index()),
        forall|d: int| old(obj_space)@.attached(d) ==> final(obj_space)@.attached(d),
        old(obj_space)@.fanout_ok() ==> final(obj_space)@.fanout_ok(),
        final(obj_space)@.nodes[final(obj_space)@.root.index()].mbr == spec_common(
            old(obj_space)@.nodes[old(obj_space)@.root.index()].mbr,
            old(obj_space)@.data[insert_node_id.index()].mbr,
        ),
        exists|leaf: RecordId|
            #[trigger] went_to(old(obj_space)@, final(obj_space)@, leaf, insert_node_id),
        exists|lv: Seq<nat>| #[trigger]
            old(obj_space)@.wf_lv(lv) && final(obj_space)@ == inserted(
                old(obj_space)@,
                lv,
                insert_node_id.index(),
            ),
{
    let ghost t = obj_space@;
    let ghost lv = choose|lv: Seq<nat>| t.wf_lv(lv);
    let d = insert_node_id.as_node_id();
    let ghost m = t.data[d as int].mbr;
    let ghost r0 = t.nodes[t.root.index()].mbr;
    let ghost bound = spec_common(r0, m);
    let ghost keep = Set::new(|d2: int| t.attached(d2) || d2 == d);
    let ghost fan = t.fanout_ok();
    proof {
        assert(t.data_ok(d as int));
        assert(t.node_ok(lv, t.root.index()));
        lemma_common_holds(r0, m);
    }
    let mbr = obj_space.get_mbr(insert_node_id).clone();
    let max_records = obj_space.max_records;
    let node_id = select_node(&*obj_space, Ghost(lv), &mbr, Ghost(bound));
    let ghost l = node_id.index();
    let ghost f = Fix {
        c: l,
        e: None,
        believed: t.nodes[l].mbr,
        added: m,
        bound,
        fan,
        keep,
    };
    proof {
        assert(t.node_ok(lv, l));
        if l != t.root.index() {
            assert(t.up_ok(lv, l));
        }
    }
    if obj_space.get_node(node_id).payload.len() < max_records {
        obj_space.add_child(node_id, insert_node_id);
        obj_space.set_parent_info(insert_node_id, node_id);
        proof {
            lemma_leaf_bind(t, lv, d, f);
        }
        let ghost t_bound = obj_space@;
        fix_tree(obj_space, Ghost(lv), Ghost(f), Ghost(r0), node_id, None);
        proof {
            assert(placed_in_leaf(t, obj_space@, node_id, insert_node_id)) by {
                assert forall|j: int| 0 <= j < t.nodes.len() implies (
                #[trigger] obj_space@.nodes[j]).parent == t.nodes[j].parent by {
                    assert(obj_space@.nodes[j].parent == t_bound.nodes[j].parent);
                }
                assert forall|j: int|
                    0 <= j < t.nodes.len() && j != node_id.index() implies (
                #[trigger] obj_space@.nodes[j]).children == t.nodes[j].children by {
                    assert(obj_space@.nodes[j].children == t_bound.nodes[j].children);
                }
                assert(obj_space@.nodes[l].children == t_bound.nodes[l].children);
            }
            assert(f.keep.contains(d as int));
            assert forall|d2: int| t.attached(d2) implies obj_space@.attached(d2) by {
                assert(f.keep.contains(d2));
            }
        }
    } else {
        proof {
            lemma_wf_split_pre(t, lv, d, f);
            if fan {
                assert(t.fanout_ok_at(l));
            }
        }
        let sibling = split_node(obj_space, Ghost(lv), Ghost(f), node_id, insert_node_id);
        let ghost f2 = Fix { c: l, e: Some(t.nodes.len() as int), believed: t.nodes[l].mbr, ..f };
        fix_tree(
            obj_space,
            Ghost(lv.push(lv[l])),
            Ghost(f2),
            Ghost(r0),
            node_id,
            Some(sibling),
        );
        proof {
            assert(f2.keep.contains(d as int));
            assert forall|d2: int| t.attached(d2) implies obj_space@.attached(d2) by {
                assert(f2.keep.contains(d2));
            }
        }
    }
    proof {
        assert(went_to(t, obj_space@, node_id, insert_node_id));
        assert(t.wf_lv(lv) && obj_space@ == inserted(t, lv, insert_node_id.index()));
    }
}

} // verus!
