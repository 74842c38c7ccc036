//! The mathematical model of an object space: what the tree is, apart from
//! the objects it stores, and when it is well formed.

use crate::mbr::{box_ordered, spec_common, spec_hull, spec_intersects, Bounds};
use crate::node::RecordId;
use vstd::prelude::*;

verus! {

/// Model of an internal node.
pub struct NodeView {
    pub parent: RecordId,
    pub mbr: Seq<Bounds>,
    pub children: Seq<RecordId>,
}

/// Model of a data node: its parent, its rectangle, and whether it is parked
/// in the freelist.
pub struct DataView {
    pub parent: RecordId,
    pub mbr: Seq<Bounds>,
    pub removed: bool,
}

/// Model of an object space.
pub struct TreeView {
    pub nodes: Seq<NodeView>,
    pub data: Seq<DataView>,
    pub live_num: nat,
    pub dimension: nat,
    pub min_records: nat,
    pub max_records: nat,
    pub root: RecordId,
}

/// Number of data nodes that are not parked.
pub open spec fn live_count(data: Seq<DataView>) -> nat
    decreases data.len(),
{
    if data.len() == 0 {
        0
    } else {
        live_count(data.drop_last()) + if data.last().removed {
            0nat
        } else {
            1nat
        }
    }
}

/// The identifier of node `i` at level `lv[i]`: a leaf at level 0, internal
/// above.
pub open spec fn id_of(lv: Seq<nat>, i: int) -> RecordId {
    if lv[i] == 0 {
        RecordId::Leaf(i as usize)
    } else {
        RecordId::Internal(i as usize)
    }
}

/// The limits on the fanout that a space may be made with.
pub open spec fn config_ok(dimension: nat, min_records: nat, max_records: nat) -> bool {
    &&& dimension >= 1
    &&& min_records >= 2
    &&& 2 * min_records <= max_records + 1
}

impl TreeView {
    /// The space right after construction: one empty leaf, which is the root.
    pub open spec fn fresh(
        data: Seq<DataView>,
        dimension: nat,
        min_records: nat,
        max_records: nat,
    ) -> TreeView {
        TreeView {
            nodes: seq![
                NodeView { parent: RecordId::Root, mbr: Seq::empty(), children: Seq::empty() },
            ],
            data,
            live_num: live_count(data),
            dimension,
            min_records,
            max_records,
            root: RecordId::Leaf(0),
        }
    }

    /// Rectangle of the record that `id` names; undefined for `Root`.
    pub open spec fn rec_mbr(self, id: RecordId) -> Seq<Bounds> {
        match id {
            RecordId::Root => Seq::empty(),
            RecordId::Data(d) => self.data[d as int].mbr,
            RecordId::Internal(i) => self.nodes[i as int].mbr,
            RecordId::Leaf(i) => self.nodes[i as int].mbr,
        }
    }

    /// `id` names a record that exists in its arena.
    pub open spec fn resolves(self, id: RecordId) -> bool {
        match id {
            RecordId::Root => false,
            RecordId::Data(d) => d < self.data.len(),
            RecordId::Internal(i) => i < self.nodes.len(),
            RecordId::Leaf(i) => i < self.nodes.len(),
        }
    }

    /// Rectangles of the children of node `i`, in order.
    pub open spec fn child_mbrs(self, i: int) -> Seq<Seq<Bounds>> {
        Seq::new(self.nodes[i].children.len(), |k: int| self.rec_mbr(self.nodes[i].children[k]))
    }

    /// Data node `d` exists and is not parked.
    pub open spec fn is_live(self, d: int) -> bool {
        0 <= d < self.data.len() && !self.data[d].removed
    }

    /// Data node `d` is held by the leaf that it names as its parent.
    pub open spec fn attached(self, d: int) -> bool {
        &&& 0 <= d < self.data.len()
        &&& self.data[d].parent is Leaf
        &&& self.data[d].parent.index() < self.nodes.len()
        &&& self.nodes[self.data[d].parent.index()].children.contains(RecordId::Data(d as usize))
    }

    /// Every live data node is in the tree.
    pub open spec fn complete(self) -> bool {
        forall|d: int| self.is_live(d) ==> self.attached(d)
    }

    /// The data nodes that a search for `area` must return: those that are
    /// live, in the tree, and intersect `area`.
    pub open spec fn found(self, area: Seq<Bounds>) -> Set<usize> {
        Set::new(
            |d: usize|
                self.is_live(d as int) && self.attached(d as int) && spec_intersects(
                    self.data[d as int].mbr,
                    area,
                ),
        )
    }

    /// The live data nodes that intersect `area`, in the tree or not.
    pub open spec fn live_in(self, area: Seq<Bounds>) -> Set<usize> {
        Set::new(
            |d: usize| self.is_live(d as int) && spec_intersects(self.data[d as int].mbr, area),
        )
    }

    // ----- well-formedness -----

    /// The root is a node of the arena, named by its level, and has no parent.
    pub open spec fn root_ok(self, lv: Seq<nat>) -> bool {
        &&& self.root.is_node()
        &&& self.root.index() < self.nodes.len()
        &&& self.root == id_of(lv, self.root.index())
        &&& self.nodes[self.root.index()].parent is Root
    }

    /// Child `k` of node `i` exists, stands one level below and names `i` as
    /// its parent.
    pub open spec fn child_ok(self, lv: Seq<nat>, i: int, k: int) -> bool {
        let c = self.nodes[i].children[k];
        if lv[i] == 0 {
            &&& c is Data
            &&& c.index() < self.data.len()
            &&& self.data[c.index()].parent == RecordId::Leaf(i as usize)
        } else {
            &&& c.is_node()
            &&& c.index() < self.nodes.len()
            &&& c == id_of(lv, c.index())
            &&& lv[c.index()] + 1 == lv[i]
            &&& self.nodes[c.index()].parent == RecordId::Internal(i as usize)
        }
    }

    /// Every child of node `i` is linked with it.
    pub open spec fn children_ok(self, lv: Seq<nat>, i: int) -> bool {
        forall|k: int| 0 <= k < self.nodes[i].children.len() ==> self.child_ok(lv, i, k)
    }

    /// No child occurs twice in node `i`.
    pub open spec fn distinct_children(self, i: int) -> bool {
        forall|k1: int, k2: int|
            0 <= k1 < k2 < self.nodes[i].children.len() ==> self.nodes[i].children[k1]
                != self.nodes[i].children[k2]
    }

    /// Node `i` names an internal node one level above as its parent, and
    /// that node holds it.
    pub open spec fn up_ok(self, lv: Seq<nat>, i: int) -> bool {
        let p = self.nodes[i].parent;
        &&& p is Internal
        &&& p.index() < self.nodes.len()
        &&& lv[p.index()] == lv[i] + 1
        &&& self.nodes[p.index()].children.contains(id_of(lv, i))
    }

    /// The rectangle of node `i` is the common rectangle of its children.
    pub open spec fn cover_ok(self, i: int) -> bool {
        self.nodes[i].mbr == spec_hull(self.child_mbrs(i))
    }

    /// The rectangle of node `i` is undefined or of the tree's dimension,
    /// and ordered.
    pub open spec fn shape_ok(self, i: int) -> bool {
        &&& self.nodes[i].mbr.len() == 0 || self.nodes[i].mbr.len() == self.dimension
        &&& self.nodes[i].children.len() >= 1 ==> self.nodes[i].mbr.len() == self.dimension
        &&& box_ordered(self.nodes[i].mbr)
    }

    /// Node `i` has a child, unless it is a leaf and the root.
    pub open spec fn populated(self, lv: Seq<nat>, i: int) -> bool {
        i != self.root.index() || lv[i] > 0 ==> self.nodes[i].children.len() >= 1
    }

    /// Everything that well-formedness asks of node `i` but its link upward.
    pub open spec fn node_ok(self, lv: Seq<nat>, i: int) -> bool {
        &&& self.children_ok(lv, i)
        &&& self.distinct_children(i)
        &&& self.cover_ok(i)
        &&& self.shape_ok(i)
        &&& self.populated(lv, i)
        &&& lv[i] <= lv[self.root.index()]
    }

    /// The rectangle of data node `d` is of the tree's dimension, and ordered.
    pub open spec fn data_ok(self, d: int) -> bool {
        &&& self.data[d].mbr.len() == self.dimension
        &&& box_ordered(self.data[d].mbr)
    }

    /// Every data node has a rectangle of the tree's dimension, and ordered.
    pub open spec fn all_data_ok(self) -> bool {
        forall|d: int| 0 <= d < self.data.len() ==> self.data_ok(d)
    }

    /// Everything but the nodes: the limits, the data and the live count.
    pub open spec fn base_ok(self) -> bool {
        &&& config_ok(self.dimension, self.min_records, self.max_records)
        &&& self.nodes.len() <= usize::MAX
        &&& self.data.len() <= usize::MAX
        &&& self.live_num == live_count(self.data)
        &&& self.all_data_ok()
    }

    /// Well-formedness with the level of each node given: `lv[i]` is the
    /// distance from node `i` down to the leaves.
    pub open spec fn wf_lv(self, lv: Seq<nat>) -> bool {
        &&& self.base_ok()
        &&& lv.len() == self.nodes.len()
        &&& self.root_ok(lv)
        &&& forall|i: int| 0 <= i < self.nodes.len() ==> self.node_ok(lv, i)
        &&& forall|i: int| 0 <= i < self.nodes.len() && i != self.root.index() ==> self.up_ok(lv, i)
    }

    /// The tree is well formed: every node of the arena is in the tree, all
    /// leaves are at the same depth, children and parents name each other,
    /// leaves hold data nodes and internal nodes hold nodes of one kind,
    /// and every node's rectangle is the common rectangle of its children.
    pub open spec fn wf(self) -> bool {
        exists|lv: Seq<nat>| self.wf_lv(lv)
    }

    /// Fanout of node `i`: within the limits, or at least 2 for an internal
    /// root.
    pub open spec fn fanout_ok_at(self, i: int) -> bool {
        if i == self.root.index() {
            self.root is Internal ==> 2 <= self.nodes[i].children.len() <= self.max_records
        } else {
            self.min_records <= self.nodes[i].children.len() <= self.max_records
        }
    }

    /// Every node but the root holds between `min_records` and
    /// `max_records` children; an internal root holds at least 2; a leaf
    /// root holds at most `max_records`.
    pub open spec fn fanout_ok(self) -> bool {
        &&& forall|i: int| 0 <= i < self.nodes.len() ==> self.fanout_ok_at(i)
        &&& self.nodes[self.root.index()].children.len() <= self.max_records
    }

    // ----- the steps by which a space changes -----

    /// The tree with one more node at the end of the arena.
    pub open spec fn push_node(self, n: NodeView) -> TreeView {
        TreeView { nodes: self.nodes.push(n), ..self }
    }

    /// The tree with one more data node at the end of the arena.
    pub open spec fn push_data(self, d: DataView) -> TreeView {
        TreeView {
            data: self.data.push(d),
            live_num: if d.removed {
                self.live_num
            } else {
                self.live_num + 1
            },
            ..self
        }
    }

    /// The tree with `c` as one more child of node `i`; rectangles stay.
    pub open spec fn push_child(self, i: int, c: RecordId) -> TreeView {
        TreeView {
            nodes: self.nodes.update(
                i,
                NodeView { children: self.nodes[i].children.push(c), ..self.nodes[i] },
            ),
            ..self
        }
    }

    /// The tree with `children` as the children of node `i`.
    pub open spec fn set_children(self, i: int, children: Seq<RecordId>) -> TreeView {
        TreeView {
            nodes: self.nodes.update(i, NodeView { children, ..self.nodes[i] }),
            ..self
        }
    }

    /// The tree with `mbr` as the rectangle of node `i`.
    pub open spec fn set_node_mbr(self, i: int, mbr: Seq<Bounds>) -> TreeView {
        TreeView { nodes: self.nodes.update(i, NodeView { mbr, ..self.nodes[i] }), ..self }
    }

    /// The tree with `parent` as the parent of node `i`.
    pub open spec fn set_node_parent(self, i: int, parent: RecordId) -> TreeView {
        TreeView { nodes: self.nodes.update(i, NodeView { parent, ..self.nodes[i] }), ..self }
    }

    /// The tree with `mbr` as the rectangle of data node `d`.
    pub open spec fn set_data_mbr(self, d: int, mbr: Seq<Bounds>) -> TreeView {
        TreeView { data: self.data.update(d, DataView { mbr, ..self.data[d] }), ..self }
    }

    /// The tree with `parent` as the parent of data node `d`.
    pub open spec fn set_data_parent(self, d: int, parent: RecordId) -> TreeView {
        TreeView { data: self.data.update(d, DataView { parent, ..self.data[d] }), ..self }
    }

    /// Sets the rectangle of the record that `id` names.
    pub open spec fn set_mbr(self, id: RecordId, mbr: Seq<Bounds>) -> TreeView {
        match id {
            RecordId::Data(d) => self.set_data_mbr(d as int, mbr),
            _ => self.set_node_mbr(id.index(), mbr),
        }
    }

    /// Sets the parent of the record that `id` names.
    pub open spec fn set_parent(self, id: RecordId, parent: RecordId) -> TreeView {
        match id {
            RecordId::Data(d) => self.set_data_parent(d as int, parent),
            _ => self.set_node_parent(id.index(), parent),
        }
    }

    /// The tree with `root` as its root.
    pub open spec fn set_root(self, root: RecordId) -> TreeView {
        TreeView { root, ..self }
    }

    /// Appends `c` to node `i` and widens the node's rectangle by that of
    /// `c`; a first child gives the node its rectangle.
    pub open spec fn add_child(self, i: int, c: RecordId) -> TreeView {
        self.push_child(i, c).set_node_mbr(
            i,
            if self.nodes[i].children.len() == 0 {
                self.rec_mbr(c)
            } else {
                spec_common(self.nodes[i].mbr, self.rec_mbr(c))
            },
        )
    }
}


/// The live count depends on the freelist alone.
pub proof fn lemma_live_count_same(a: Seq<DataView>, b: Seq<DataView>)
    requires
        a.len() == b.len(),
        forall|d: int| 0 <= d < a.len() ==> a[d].removed == b[d].removed,
    ensures
        live_count(a) == live_count(b),
    decreases a.len(),
{
    if a.len() > 0 {
        lemma_live_count_same(a.drop_last(), b.drop_last());
    }
}

/// What is asked of the data and the limits holds as long as rectangles,
/// freelist and limits stay the same; parents may change.
pub proof fn lemma_base_kept(t: TreeView, t2: TreeView)
    requires
        t.base_ok(),
        t2.data.len() == t.data.len(),
        forall|d: int|
            0 <= d < t.data.len() ==> t2.data[d].mbr == t.data[d].mbr && t2.data[d].removed
                == t.data[d].removed,
        t2.live_num == t.live_num,
        t2.dimension == t.dimension,
        t2.min_records == t.min_records,
        t2.max_records == t.max_records,
        t2.nodes.len() <= usize::MAX,
    ensures
        t2.base_ok(),
{
    lemma_live_count_same(t.data, t2.data);
    assert forall|d: int| 0 <= d < t2.data.len() implies t2.data_ok(d) by {
        assert(t.data_ok(d));
    }
}


impl TreeView {
    /// Both trees have the same limits and the same data nodes, with the
    /// same rectangles and the same freelist; the tree structure and the
    /// parents of the data nodes may differ.
    pub open spec fn same_data(self, other: TreeView) -> bool {
        &&& self.data.len() == other.data.len()
        &&& forall|d: int|
            0 <= d < self.data.len() ==> (#[trigger] self.data[d]).mbr == other.data[d].mbr
                && self.data[d].removed == other.data[d].removed
        &&& self.live_num == other.live_num
        &&& self.dimension == other.dimension
        &&& self.min_records == other.min_records
        &&& self.max_records == other.max_records
    }
}


/// The live data nodes in the order of the arena, as identifiers.
pub open spec fn live_ids(data: Seq<DataView>) -> Seq<RecordId>
    decreases data.len(),
{
    if data.len() == 0 {
        Seq::empty()
    } else if data.last().removed {
        live_ids(data.drop_last())
    } else {
        live_ids(data.drop_last()).push(RecordId::Data((data.len() - 1) as usize))
    }
}

/// `live_ids` names each live data node once, in rising order, and nothing
/// else.
pub proof fn lemma_live_ids(data: Seq<DataView>)
    requires
        data.len() <= usize::MAX,
    ensures
        live_ids(data).len() == live_count(data),
        live_ids(data).len() <= data.len(),
        forall|k: int|
            0 <= k < live_ids(data).len() ==> (#[trigger] live_ids(data)[k]) is Data
                && live_ids(data)[k].index() < data.len() && !data[live_ids(
                data,
            )[k].index()].removed,
        forall|k1: int, k2: int|
            0 <= k1 < k2 < live_ids(data).len() ==> live_ids(data)[k1].index() < live_ids(
                data,
            )[k2].index(),
        forall|d: int|
            0 <= d < data.len() && !data[d].removed ==> live_ids(data).contains(
                RecordId::Data(d as usize),
            ),
        live_ids(data).no_duplicates(),
    decreases data.len(),
{
    if data.len() > 0 {
        let s = data.drop_last();
        lemma_live_ids(s);
        let l0 = live_ids(s);
        let l = live_ids(data);
        assert forall|d: int| 0 <= d < data.len() && !data[d].removed implies l.contains(
            RecordId::Data(d as usize),
        ) by {
            if d < s.len() {
                assert(!s[d].removed);
                let k = choose|k: int| 0 <= k < l0.len() && l0[k] == RecordId::Data(d as usize);
                assert(l[k] == RecordId::Data(d as usize));
            } else {
                assert(l[l.len() - 1] == RecordId::Data(d as usize));
            }
        }
        assert forall|k: int| 0 <= k < l.len() implies (#[trigger] l[k]) is Data && l[k].index()
            < data.len() && !data[l[k].index()].removed by {
            if k < l0.len() {
                assert(l[k] == l0[k]);
                assert(!s[l0[k].index()].removed);
            }
        }
        assert forall|k1: int, k2: int| 0 <= k1 < k2 < l.len() implies l[k1].index()
            < l[k2].index() by {
            if k2 < l0.len() {
                assert(l[k1] == l0[k1] && l[k2] == l0[k2]);
            } else {
                assert(l[k1] == l0[k1]);
            }
        }
    }
}

/// Parking a live data node lowers the live count by one.
pub proof fn lemma_live_count_remove(data: Seq<DataView>, d: int)
    requires
        0 <= d < data.len(),
        !data[d].removed,
    ensures
        live_count(data.update(d, DataView { removed: true, ..data[d] })) + 1 == live_count(data),
    decreases data.len(),
{
    let u = data.update(d, DataView { removed: true, ..data[d] });
    if d == data.len() - 1 {
        assert(u.drop_last() =~= data.drop_last());
    } else {
        lemma_live_count_remove(data.drop_last(), d);
        assert(u.drop_last() =~= data.drop_last().update(
            d,
            DataView { removed: true, ..data[d] },
        ));
    }
}

/// Where nothing is parked, every data node counts.
pub proof fn lemma_live_count_all(data: Seq<DataView>)
    requires
        forall|d: int| 0 <= d < data.len() ==> !(#[trigger] data[d]).removed,
    ensures
        live_count(data) == data.len(),
    decreases data.len(),
{
    if data.len() > 0 {
        lemma_live_count_all(data.drop_last());
    }
}

/// The live count is at most the number of data nodes.
pub proof fn lemma_live_count_bound(data: Seq<DataView>)
    ensures
        live_count(data) <= data.len(),
    decreases data.len(),
{
    if data.len() > 0 {
        lemma_live_count_bound(data.drop_last());
    }
}

/// A space that is fresh from construction is well formed, within the
/// fanout limits, and holds none of its data in the tree.
pub proof fn lemma_fresh_wf(data: Seq<DataView>, dimension: nat, min_records: nat, max_records: nat)
    requires
        config_ok(dimension, min_records, max_records),
        data.len() <= usize::MAX,
        forall|d: int|
            0 <= d < data.len() ==> (#[trigger] data[d]).mbr.len() == dimension && box_ordered(
                data[d].mbr,
            ),
    ensures
        TreeView::fresh(data, dimension, min_records, max_records).wf(),
        TreeView::fresh(data, dimension, min_records, max_records).fanout_ok(),
        forall|d: int| !TreeView::fresh(data, dimension, min_records, max_records).attached(d),
{
    let t = TreeView::fresh(data, dimension, min_records, max_records);
    let lv = seq![0nat];
    assert(t.child_mbrs(0) =~= Seq::<Seq<Bounds>>::empty());
    assert(t.node_ok(lv, 0));
    assert(t.wf_lv(lv));
}

} // verus!
