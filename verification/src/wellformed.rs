//! The test of well-formedness: whether a space, however it was made, holds
//! a tree on which the operations may be called.

use crate::mbr::{all_compatible, box_ordered, common_mbr, lemma_hull_push, lemma_hull_shape, spec_hull, Bounds, MBR};
use crate::model::{config_ok, id_of, live_count, DataView, TreeView};
use crate::node::RecordId;
use crate::obj_space::ObjSpace;
use vstd::prelude::*;

verus! {

/// The level of node `i` as the first children tell it: 0 where the node
/// has no child or a data node as its first; else one more than the level
/// of its first child. `None` where the chain leaves the arena or is longer
/// than `fuel`.
pub open spec fn chain_level(t: TreeView, i: int, fuel: nat) -> Option<nat>
    decreases fuel,
{
    if !(0 <= i < t.nodes.len()) {
        None
    } else if t.nodes[i].children.len() == 0 || !t.nodes[i].children[0].is_node() {
        Some(0nat)
    } else if fuel == 0 {
        None
    } else {
        match chain_level(t, t.nodes[i].children[0].index(), (fuel - 1) as nat) {
            Some(l) => Some(l + 1),
            None => None,
        }
    }
}

/// The nodes on the chain of first children from node `i` down.
pub open spec fn chain_set(t: TreeView, lv: Seq<nat>, i: int) -> Set<int>
    decreases lv[i],
{
    let c = t.nodes[i].children[0].index();
    if lv[i] > 0 && t.nodes[i].children.len() > 0 && lv[c] < lv[i] {
        chain_set(t, lv, c).insert(i)
    } else {
        Set::empty().insert(i)
    }
}

/// In a well-formed tree the chain of first children from a node has one
/// node for each level from that of the node down.
pub proof fn lemma_chain_set(t: TreeView, lv: Seq<nat>, i: int)
    requires
        t.wf_lv(lv),
        0 <= i < t.nodes.len(),
    ensures
        chain_set(t, lv, i).finite(),
        chain_set(t, lv, i).len() == lv[i] + 1,
        forall|j: int|
            chain_set(t, lv, i).contains(j) ==> 0 <= j < t.nodes.len() && lv[j] <= lv[i],
    decreases lv[i],
{
    assert(t.node_ok(lv, i));
    if lv[i] > 0 {
        assert(t.child_ok(lv, i, 0));
        let c = t.nodes[i].children[0].index();
        lemma_chain_set(t, lv, c);
        assert(!chain_set(t, lv, c).contains(i));
        vstd::set::axiom_set_insert_len(chain_set(t, lv, c), i);
    } else {
        vstd::set::axiom_set_insert_len(Set::<int>::empty(), i);
    }
}

/// In a well-formed tree no level reaches the number of nodes.
pub proof fn lemma_level_bound(t: TreeView, lv: Seq<nat>, i: int)
    requires
        t.wf_lv(lv),
        0 <= i < t.nodes.len(),
    ensures
        lv[i] < t.nodes.len(),
{
    lemma_chain_set(t, lv, i);
    vstd::set_lib::lemma_int_range(0, t.nodes.len() as int);
    let all = vstd::set_lib::set_int_range(0, t.nodes.len() as int);
    assert(chain_set(t, lv, i).subset_of(all));
    vstd::set_lib::lemma_len_subset(chain_set(t, lv, i), all);
}

/// In a well-formed tree the first children tell the level of every node,
/// with fuel enough for that level.
pub proof fn lemma_chain_level(t: TreeView, lv: Seq<nat>, i: int, fuel: nat)
    requires
        t.wf_lv(lv),
        0 <= i < t.nodes.len(),
        fuel >= lv[i],
    ensures
        chain_level(t, i, fuel) == Some(lv[i]),
    decreases lv[i],
{
    assert(t.node_ok(lv, i));
    if lv[i] > 0 {
        assert(t.child_ok(lv, i, 0));
        lemma_chain_level(t, lv, t.nodes[i].children[0].index(), (fuel - 1) as nat);
    } else {
        if t.nodes[i].children.len() > 0 {
            assert(t.child_ok(lv, i, 0));
        }
    }
}

/// The levels as a list of numbers.
pub open spec fn levels_of(v: Seq<usize>) -> Seq<nat> {
    Seq::new(v.len(), |i: int| v[i] as nat)
}

/// Computes `chain_level` with the number of nodes as fuel.
pub fn level_of<ObjectT>(obj_space: &ObjSpace<ObjectT>, i: usize) -> (r: Option<usize>)
    requires
        i < obj_space@.nodes.len(),
    ensures
        match r {
            Some(l) => chain_level(obj_space@, i as int, obj_space@.nodes.len()) == Some(l as nat),
            None => chain_level(obj_space@, i as int, obj_space@.nodes.len()) is None,
        },
{
    let ghost t = obj_space@;
    let n = obj_space.nodes.len();
    let mut cur: usize = i;
    let mut depth: usize = 0;
    loop
        invariant
            t == obj_space@,
            n == t.nodes.len(),
            cur < n,
            depth <= n,
            chain_level(t, i as int, n as nat) == (match chain_level(
                t,
                cur as int,
                (n - depth) as nat,
            ) {
                Some(l) => Some((l + depth) as nat),
                None => None,
            }),
        decreases n - depth,
    {
        let node = &obj_space.nodes[cur];
        proof {
            assert(crate::obj_space::node_view(*node) == t.nodes[cur as int]);
        }
        if node.payload.len() == 0 {
            return Some(depth);
        }
        let first = node.payload[0];
        let next = match first {
            RecordId::Leaf(c) => c,
            RecordId::Internal(c) => c,
            _ => {
                return Some(depth);
            },
        };
        proof {
            assert(t.nodes[cur as int].children[0].is_node());
            assert(t.nodes[cur as int].children[0].index() == next);
            if depth < n && next < n {
                assert(chain_level(t, cur as int, (n - depth) as nat) == (match chain_level(
                    t,
                    next as int,
                    (n - depth - 1) as nat,
                ) {
                    Some(l) => Some(l + 1),
                    None => None,
                }));
            } else if depth < n {
                assert(chain_level(t, next as int, (n - depth - 1) as nat) is None);
                assert(chain_level(t, cur as int, (n - depth) as nat) is None);
            } else {
                assert(chain_level(t, cur as int, 0) is None);
            }
        }
        if depth == n || next >= n {
            return None;
        }
        cur = next;
        depth += 1;
    }
}

/// The levels of all nodes, as the first children tell them; `None` where
/// they tell none for some node.
pub fn compute_levels<ObjectT>(obj_space: &ObjSpace<ObjectT>) -> (r: Option<Vec<usize>>)
    ensures
        match r {
            Some(v) => v@.len() == obj_space@.nodes.len() && forall|i: int|
                0 <= i < v@.len() ==> chain_level(obj_space@, i, obj_space@.nodes.len()) == Some(
                    #[trigger] v@[i] as nat,
                ),
            None => exists|i: int|
                0 <= i < obj_space@.nodes.len() && chain_level(
                    obj_space@,
                    i,
                    obj_space@.nodes.len(),
                ) is None,
        },
{
    let ghost t = obj_space@;
    let n = obj_space.nodes.len();
    let mut levels: Vec<usize> = Vec::new();
    let mut i: usize = 0;
    while i < n
        invariant
            i <= n,
            t == obj_space@,
            n == t.nodes.len(),
            levels@.len() == i,
            forall|j: int|
                0 <= j < i ==> chain_level(t, j, n as nat) == Some(#[trigger] levels@[j] as nat),
        decreases n - i,
    {
        match level_of(obj_space, i) {
            Some(l) => {
                levels.push(l);
            },
            None => {
                return None;
            },
        }
        i += 1;
    }
    Some(levels)
}

/// Decides `base_ok`: the limits, the live count and the data rectangles.
pub fn base_holds<ObjectT>(obj_space: &ObjSpace<ObjectT>) -> (ok: bool)
    ensures
        ok == obj_space@.base_ok(),
{
    let ghost t = obj_space@;
    let min = obj_space.min_records;
    let max = obj_space.max_records;
    if !(obj_space.dimension >= 1 && min >= 2 && min <= max && min - 1 <= max - min) {
        return false;
    }
    proof {
        assert(config_ok(t.dimension, t.min_records, t.max_records));
        assert(obj_space.nodes.len() == t.nodes.len());
        assert(obj_space.data_nodes.len() == t.data.len());
    }
    let n = obj_space.data_nodes.len();
    let mut live: usize = 0;
    let mut d: usize = 0;
    proof {
        assert(t.data.take(0) =~= Seq::<DataView>::empty());
    }
    while d < n
        invariant
            d <= n,
            t == obj_space@,
            n == t.data.len(),
            n == obj_space.data_nodes@.len(),
            live == live_count(t.data.take(d as int)),
            live <= d,
            forall|e: int| 0 <= e < d ==> t.data_ok(e),
        decreases n - d,
    {
        proof {
            assert(t.data.take(d + 1).drop_last() =~= t.data.take(d as int));
            assert(t.data.take(d + 1).last() == t.data[d as int]);
        }
        let slot = &obj_space.data_nodes[d];
        if slot.node.mbr.dimension() != obj_space.dimension || !slot.node.mbr.is_ordered() {
            proof {
                assert(!t.data_ok(d as int));
            }
            return false;
        }
        if !slot.removed {
            live += 1;
        }
        d += 1;
    }
    proof {
        assert(t.data.take(n as int) =~= t.data);
    }
    live == obj_space.live_num
}

/// Decides `shape_ok` of every node.
pub fn shapes_hold<ObjectT>(obj_space: &ObjSpace<ObjectT>) -> (ok: bool)
    ensures
        ok == (forall|i: int| 0 <= i < obj_space@.nodes.len() ==> obj_space@.shape_ok(i)),
{
    let ghost t = obj_space@;
    let n = obj_space.nodes.len();
    let mut i: usize = 0;
    while i < n
        invariant
            i <= n,
            t == obj_space@,
            n == t.nodes.len(),
            forall|j: int| 0 <= j < i ==> t.shape_ok(j),
        decreases n - i,
    {
        let node = &obj_space.nodes[i];
        proof {
            assert(crate::obj_space::node_view(*node) == t.nodes[i as int]);
        }
        let dim = node.mbr.dimension();
        let fine = (dim == 0 || dim == obj_space.dimension) && (node.payload.len() == 0 || dim
            == obj_space.dimension) && node.mbr.is_ordered();
        if !fine {
            proof {
                assert(!t.shape_ok(i as int));
            }
            return false;
        }
        i += 1;
    }
    true
}

/// Decides `child_ok` of child `k` of node `i`.
pub fn child_holds<ObjectT>(
    obj_space: &ObjSpace<ObjectT>,
    levels: &Vec<usize>,
    i: usize,
    k: usize,
) -> (ok: bool)
    requires
        levels@.len() == obj_space@.nodes.len(),
        i < obj_space@.nodes.len(),
        k < obj_space@.nodes[i as int].children.len(),
    ensures
        ok == obj_space@.child_ok(levels_of(levels@), i as int, k as int),
{
    let ghost t = obj_space@;
    let ghost lv = levels_of(levels@);
    let node = &obj_space.nodes[i];
    proof {
        assert(crate::obj_space::node_view(*node) == t.nodes[i as int]);
        assert(lv[i as int] == levels@[i as int]);
    }
    let child = node.payload[k];
    if levels[i] == 0 {
        match child {
            RecordId::Data(d) => {
                if d >= obj_space.data_nodes.len() {
                    return false;
                }
                match obj_space.data_nodes[d].node.parent_id {
                    RecordId::Leaf(p) => p == i,
                    _ => false,
                }
            },
            _ => false,
        }
    } else {
        let (c, is_leaf) = match child {
            RecordId::Leaf(c) => (c, true),
            RecordId::Internal(c) => (c, false),
            _ => {
                return false;
            },
        };
        if c >= obj_space.nodes.len() {
            return false;
        }
        proof {
            assert(lv[c as int] == levels@[c as int]);
            assert(crate::obj_space::node_view(obj_space.nodes@[c as int]) == t.nodes[c as int]);
        }
        if is_leaf != (levels[c] == 0) {
            return false;
        }
        if levels[c] >= levels[i] || levels[c] + 1 != levels[i] {
            return false;
        }
        match obj_space.nodes[c].parent_id {
            RecordId::Internal(p) => p == i,
            _ => false,
        }
    }
}

/// Decides `children_ok` and `distinct_children` of node `i`.
pub fn children_hold<ObjectT>(
    obj_space: &ObjSpace<ObjectT>,
    levels: &Vec<usize>,
    i: usize,
) -> (ok: bool)
    requires
        levels@.len() == obj_space@.nodes.len(),
        i < obj_space@.nodes.len(),
    ensures
        ok == (obj_space@.children_ok(levels_of(levels@), i as int)
            && obj_space@.distinct_children(i as int)),
{
    let ghost t = obj_space@;
    let ghost lv = levels_of(levels@);
    let node = &obj_space.nodes[i];
    proof {
        assert(crate::obj_space::node_view(*node) == t.nodes[i as int]);
    }
    let n = node.payload.len();
    let mut k: usize = 0;
    while k < n
        invariant
            k <= n,
            t == obj_space@,
            lv == levels_of(levels@),
            levels@.len() == t.nodes.len(),
            i < t.nodes.len(),
            node.payload@ == t.nodes[i as int].children,
            n == t.nodes[i as int].children.len(),
            forall|j: int| 0 <= j < k ==> t.child_ok(lv, i as int, j),
            forall|j1: int, j2: int|
                0 <= j1 < j2 < k ==> t.nodes[i as int].children[j1] != t.nodes[i as int].children[j2],
        decreases n - k,
    {
        if !child_holds(obj_space, levels, i, k) {
            proof {
                assert(!t.child_ok(lv, i as int, k as int));
            }
            return false;
        }
        let child = node.payload[k];
        let mut j: usize = 0;
        while j < k
            invariant
                j <= k < n,
                t == obj_space@,
                node.payload@ == t.nodes[i as int].children,
                n == t.nodes[i as int].children.len(),
                child == t.nodes[i as int].children[k as int],
                forall|j1: int| 0 <= j1 < j ==> t.nodes[i as int].children[j1] != child,
            decreases k - j,
        {
            if same_id(node.payload[j], child) {
                proof {
                    assert(t.nodes[i as int].children[j as int] == t.nodes[i as int].children[k as int]);
                    assert(!t.distinct_children(i as int));
                }
                return false;
            }
            j += 1;
        }
        k += 1;
    }
    true
}

/// Whether two identifiers are the same.
pub fn same_id(a: RecordId, b: RecordId) -> (r: bool)
    ensures
        r == (a == b),
{
    match (a, b) {
        (RecordId::Root, RecordId::Root) => true,
        (RecordId::Internal(x), RecordId::Internal(y)) => x == y,
        (RecordId::Leaf(x), RecordId::Leaf(y)) => x == y,
        (RecordId::Data(x), RecordId::Data(y)) => x == y,
        _ => false,
    }
}

/// Decides `cover_ok` of node `i`, whose children are linked with it, in a
/// space whose rectangles are all of the right shape.
pub fn cover_holds<ObjectT>(obj_space: &ObjSpace<ObjectT>, Ghost(lv): Ghost<Seq<nat>>, i: usize) -> (ok:
    bool)
    requires
        obj_space@.all_data_ok(),
        i < obj_space@.nodes.len(),
        lv.len() == obj_space@.nodes.len(),
        obj_space@.children_ok(lv, i as int),
        forall|j: int| 0 <= j < obj_space@.nodes.len() ==> obj_space@.shape_ok(j),
    ensures
        ok == obj_space@.cover_ok(i as int),
{
    let ghost t = obj_space@;
    let ghost all = t.child_mbrs(i as int);
    let node = &obj_space.nodes[i];
    proof {
        assert(crate::obj_space::node_view(*node) == t.nodes[i as int]);
        assert forall|k: int| 0 <= k < all.len() implies ((#[trigger] all[k]).len() == 0
            || all[k].len() == t.dimension) && t.resolves(t.nodes[i as int].children[k]) by {
            assert(t.child_ok(lv, i as int, k));
            let c = t.nodes[i as int].children[k];
            if lv[i as int] == 0 {
                assert(t.data_ok(c.index()));
            } else {
                assert(t.shape_ok(c.index()));
            }
        }
        assert forall|k: int| 0 <= k < t.nodes[i as int].children.len() implies t.resolves(
            #[trigger] t.nodes[i as int].children[k],
        ) by {
            assert(t.child_ok(lv, i as int, k));
        }
        assert(all.take(0) =~= Seq::<Seq<Bounds>>::empty());
    }
    let mut hull = MBR::undefined();
    let mut k: usize = 0;
    while k < node.payload.len()
        invariant
            k <= node.payload.len(),
            t == obj_space@,
            i < t.nodes.len(),
            node.payload@ == t.nodes[i as int].children,
            all == t.child_mbrs(i as int),
            all_compatible(all, t.dimension),
            forall|k: int|
                0 <= k < t.nodes[i as int].children.len() ==> t.resolves(
                    #[trigger] t.nodes[i as int].children[k],
                ),
            hull@ == spec_hull(all.take(k as int)),
        decreases node.payload.len() - k,
    {
        proof {
            let prefix = all.take(k as int);
            assert forall|j: int| 0 <= j < prefix.len() implies (#[trigger] prefix[j]).len() == 0
                || prefix[j].len() == t.dimension by {
                assert(prefix[j] == all[j]);
            }
            lemma_hull_shape(prefix, t.dimension);
            assert(t.resolves(t.nodes[i as int].children[k as int]));
            assert(all[k as int].len() == 0 || all[k as int].len() == t.dimension);
            assert(all.take(k + 1) =~= prefix.push(all[k as int]));
            lemma_hull_push(prefix, all[k as int]);
        }
        hull = common_mbr(&hull, obj_space.get_mbr(node.payload[k]));
        k += 1;
    }
    proof {
        assert(all.take(node.payload.len() as int) =~= all);
    }
    node.mbr.equals(&hull)
}

/// Decides `up_ok` of node `i`.
pub fn up_holds<ObjectT>(obj_space: &ObjSpace<ObjectT>, levels: &Vec<usize>, i: usize) -> (ok: bool)
    requires
        levels@.len() == obj_space@.nodes.len(),
        i < obj_space@.nodes.len(),
    ensures
        ok == obj_space@.up_ok(levels_of(levels@), i as int),
{
    let ghost t = obj_space@;
    let ghost lv = levels_of(levels@);
    proof {
        assert(crate::obj_space::node_view(obj_space.nodes@[i as int]) == t.nodes[i as int]);
        assert(lv[i as int] == levels@[i as int]);
    }
    let p = match obj_space.nodes[i].parent_id {
        RecordId::Internal(p) => p,
        _ => {
            return false;
        },
    };
    if p >= obj_space.nodes.len() {
        return false;
    }
    proof {
        assert(crate::obj_space::node_view(obj_space.nodes@[p as int]) == t.nodes[p as int]);
        assert(lv[p as int] == levels@[p as int]);
    }
    if levels[p] == 0 || levels[p] - 1 != levels[i] {
        return false;
    }
    let own = if levels[i] == 0 {
        RecordId::Leaf(i)
    } else {
        RecordId::Internal(i)
    };
    let siblings = &obj_space.nodes[p].payload;
    let mut k: usize = 0;
    while k < siblings.len()
        invariant
            k <= siblings.len(),
            t == obj_space@,
            lv == levels_of(levels@),
            i < t.nodes.len(),
            p < t.nodes.len(),
            t.nodes[i as int].parent == RecordId::Internal(p),
            lv[p as int] == lv[i as int] + 1,
            siblings@ == t.nodes[p as int].children,
            own == id_of(lv, i as int),
            forall|j: int| 0 <= j < k ==> t.nodes[p as int].children[j] != own,
        decreases siblings.len() - k,
    {
        if same_id(siblings[k], own) {
            proof {
                assert(t.nodes[p as int].children[k as int] == own);
            }
            return true;
        }
        k += 1;
    }
    proof {
        if t.nodes[p as int].children.contains(own) {
            let k = choose|k: int|
                0 <= k < t.nodes[p as int].children.len() && t.nodes[p as int].children[k] == own;
            assert(false);
        }
    }
    false
}

/// Decides `root_ok`.
pub fn root_holds<ObjectT>(obj_space: &ObjSpace<ObjectT>, levels: &Vec<usize>) -> (ok: bool)
    requires
        levels@.len() == obj_space@.nodes.len(),
    ensures
        ok == obj_space@.root_ok(levels_of(levels@)),
{
    let ghost t = obj_space@;
    let ghost lv = levels_of(levels@);
    let (r, is_leaf) = match obj_space.root_id {
        RecordId::Leaf(r) => (r, true),
        RecordId::Internal(r) => (r, false),
        _ => {
            return false;
        },
    };
    if r >= obj_space.nodes.len() {
        return false;
    }
    proof {
        assert(crate::obj_space::node_view(obj_space.nodes@[r as int]) == t.nodes[r as int]);
        assert(lv[r as int] == levels@[r as int]);
    }
    if is_leaf != (levels[r] == 0) {
        return false;
    }
    match obj_space.nodes[r].parent_id {
        RecordId::Root => true,
        _ => false,
    }
}

impl<ObjectT> ObjSpace<ObjectT> {
/// Whether the space holds a well-formed tree: the levels are read off the
/// first children, and every condition is tested against them.
pub fn is_well_formed(&self) -> (ok: bool)
    ensures
        ok == self@.wf(),
{
    let obj_space = self;
    let ghost t = obj_space@;
    let sound = base_holds(obj_space) && shapes_hold(obj_space);
    if !sound {
        proof {
            if t.wf() {
                let lv = choose|lv: Seq<nat>| t.wf_lv(lv);
                assert forall|i: int| 0 <= i < t.nodes.len() implies t.shape_ok(i) by {
                    assert(t.node_ok(lv, i));
                }
            }
        }
        return false;
    }
    let levels = match compute_levels(obj_space) {
        Some(levels) => levels,
        None => {
            proof {
                if t.wf() {
                    let lv = choose|lv: Seq<nat>| t.wf_lv(lv);
                    let i = choose|i: int|
                        0 <= i < t.nodes.len() && chain_level(t, i, t.nodes.len()) is None;
                    lemma_level_bound(t, lv, i);
                    lemma_chain_level(t, lv, i, t.nodes.len());
                }
            }
            return false;
        },
    };
    let ghost lv = levels_of(levels@);
    proof {
        // the levels of a well-formed tree are those that were computed
        if t.wf() {
            let other = choose|other: Seq<nat>| t.wf_lv(other);
            assert forall|i: int| 0 <= i < t.nodes.len() implies other[i] == lv[i] by {
                lemma_level_bound(t, other, i);
                lemma_chain_level(t, other, i, t.nodes.len());
                assert(lv[i] == levels@[i] as nat);
            }
            assert(other =~= lv);
            assert(t.wf_lv(lv));
        }
    }
    if !root_holds(obj_space, &levels) {
        return false;
    }
    let root = obj_space.root_id.as_node_id();
    let n = obj_space.nodes.len();
    let mut i: usize = 0;
    while i < n
        invariant
            i <= n,
            t == obj_space@,
            n == t.nodes.len(),
            lv == levels_of(levels@),
            levels@.len() == n,
            t.base_ok(),
            t.root_ok(lv),
            t == self@,
            t.wf() ==> t.wf_lv(lv),
            root == t.root.index(),
            forall|j: int| 0 <= j < n ==> t.shape_ok(j),
            forall|j: int| 0 <= j < i ==> t.node_ok(lv, j),
            forall|j: int| 0 <= j < i && j != t.root.index() ==> t.up_ok(lv, j),
        decreases n - i,
    {
        proof {
            assert(lv[i as int] == levels@[i as int]);
            assert(lv[root as int] == levels@[root as int]);
            assert(crate::obj_space::node_view(obj_space.nodes@[i as int]) == t.nodes[i as int]);
        }
        if !children_hold(obj_space, &levels, i) {
            proof {
                assert(!t.node_ok(lv, i as int));
            }
            return false;
        }
        let populated = (i == root && levels[i] == 0) || obj_space.nodes[i].payload.len() >= 1;
        let fine = populated && levels[i] <= levels[root] && cover_holds(
            obj_space,
            Ghost(lv),
            i,
        ) && (i == root || up_holds(obj_space, &levels, i));
        if !fine {
            proof {
                assert(!t.node_ok(lv, i as int) || (i != t.root.index() && !t.up_ok(lv, i as int)));
            }
            return false;
        }
        i += 1;
    }
    proof {
        assert(t.wf_lv(lv));
    }
    true
}


/// Whether the tree is within the fanout limits.
pub fn is_within_fanout(&self) -> (ok: bool)
    requires
        self@.wf(),
    ensures
        ok == self@.fanout_ok(),
{
    let ghost t = self@;
    proof {
        let lv = choose|lv: Seq<nat>| t.wf_lv(lv);
        assert(t.root_ok(lv));
    }
    let root = self.root_id.as_node_id();
    let internal = match self.root_id {
        RecordId::Internal(_) => true,
        _ => false,
    };
    let n = self.nodes.len();
    let mut i: usize = 0;
    while i < n
        invariant
            i <= n,
            t == self@,
            n == t.nodes.len(),
            root == t.root.index(),
            root < n,
            internal == (t.root is Internal),
            forall|j: int| 0 <= j < i ==> t.fanout_ok_at(j),
            i > root ==> t.nodes[root as int].children.len() <= t.max_records,
        decreases n - i,
    {
        proof {
            assert(crate::obj_space::node_view(self.nodes@[i as int]) == t.nodes[i as int]);
        }
        let len = self.nodes[i].payload.len();
        let least = if i != root {
            self.min_records
        } else if internal {
            2
        } else {
            0
        };
        if len < least || len > self.max_records {
            proof {
                assert(!t.fanout_ok_at(i as int) || t.nodes[root as int].children.len()
                    > t.max_records);
            }
            return false;
        }
        i += 1;
    }
    true
}
}

} // verus!
