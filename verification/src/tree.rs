//! The tree: an object space together with the operations that keep it a
//! well-formed R-tree.

use crate::builder::{
    can_rebuild_obj_space, live_hull, rebuild_obj_space, rebuilt, rebuilt_tree,
};
use crate::insert::{insert_helper, inserted, went_to};
use crate::mbr::{box_ordered, common_mbr, spec_common, volume_fits, Bounds, MBR};
use crate::model::{live_count, DataView, TreeView};
use crate::node::{DataNode, InternalNode, NodeId, RecordId};
use crate::obj_space::ObjSpace;
use crate::search::search_obj_space;
use crate::tree_builder::LRTreeBuilder;
use crate::walk::{spec_walk, step_ok, walk_helper, Step};
use vstd::prelude::*;

verus! {

/// A walk over the tree: the tree calls `enter_node` on a node before its
/// children, `leave_node` after them, and `visit_data` on each data node.
///
/// What a call makes of the visitor is told by three relations between the
/// visitor before and after. A visitor that states none of its own has the
/// relations that hold of any two visitors.
pub trait Visitor<ObjectT>: Sized {
    /// `after` is what `enter_node` may make of `before`.
    open spec fn entered(before: Self, record_id: RecordId, node: InternalNode, after: Self) -> bool {
        true
    }

    /// `after` is what `leave_node` may make of `before`.
    open spec fn left(before: Self, record_id: RecordId, node: InternalNode, after: Self) -> bool {
        true
    }

    /// `after` is what `visit_data` may make of `before`.
    open spec fn visited(
        before: Self,
        record_id: RecordId,
        node: DataNode<ObjectT>,
        after: Self,
    ) -> bool {
        true
    }

    fn enter_node(&mut self, record_id: RecordId, node: &InternalNode)
        ensures
            Self::entered(*old(self), record_id, *node, *final(self)),
    ;

    fn leave_node(&mut self, record_id: RecordId, node: &InternalNode)
        ensures
            Self::left(*old(self), record_id, *node, *final(self)),
    ;

    fn visit_data(&mut self, record_id: RecordId, node: &DataNode<ObjectT>)
        ensures
            Self::visited(*old(self), record_id, *node, *final(self)),
    ;
}

/// `after` is what the call that `step` asks for may make of the visitor
/// `before`: `enter_node` or `leave_node` with the node that the step
/// names, or `visit_data` with the data node that it names.
pub open spec fn stepped<ObjectT, V: Visitor<ObjectT>>(
    space: ObjSpace<ObjectT>,
    before: V,
    step: Step,
    after: V,
) -> bool {
    match step {
        Step::Enter(id) => V::entered(before, id, space.nodes@[id.index()], after),
        Step::Leave(id) => V::left(before, id, space.nodes@[id.index()], after),
        Step::Data(id) => V::visited(before, id, space.data_nodes@[id.index()].node, after),
    }
}

/// `after` is what the calls that `steps` ask for, one after the other in
/// their order, may make of the visitor `before`.
pub open spec fn walked<ObjectT, V: Visitor<ObjectT>>(
    space: ObjSpace<ObjectT>,
    before: V,
    steps: Seq<Step>,
    after: V,
) -> bool
    decreases steps.len(),
{
    if steps.len() == 0 {
        after == before
    } else {
        exists|mid: V|
            walked(space, before, steps.drop_last(), mid) && #[trigger] stepped(
                space,
                mid,
                steps.last(),
                after,
            )
    }
}

/// Hooks around an insertion. Both see the new data node in the arena;
/// `before_insert` sees the tree as it was, `after_insert` the tree with the
/// data node in it.
pub trait InsertHandler<ObjectT> {
    fn before_insert(&mut self, obj_space: &ObjSpace<ObjectT>, id: NodeId) {
    }

    fn after_insert(&mut self, obj_space: &ObjSpace<ObjectT>, id: NodeId) {
    }
}

/// The hooks that do nothing.
pub struct NoHooks;

impl<ObjectT> InsertHandler<ObjectT> for NoHooks {

}

/// An R-tree over an object space.
#[derive(Debug)]
pub struct LRTree<ObjectT> {
    pub obj_space: ObjSpace<ObjectT>,
}

impl<ObjectT> View for LRTree<ObjectT> {
    type V = TreeView;

    open spec fn view(&self) -> TreeView {
        self.obj_space@
    }
}

/// The quantile of the static build where none is given, in hundredths.
pub const DEFAULT_ALPHA: usize = 45;

/// The space holds live data, but the root has no children: the data was
/// loaded and the tree is not built yet.
pub open spec fn unordered(t: TreeView) -> bool {
    t.live_num != 0 && t.nodes[t.root.index()].children.len() == 0
}

/// A rectangle may be inserted: it is in order and of the tree's dimension,
/// the volume of the tree's rectangle widened by it fits in `i64`, and the
/// data arena has room.
pub open spec fn insertable(t: TreeView, mbr: Seq<Bounds>) -> bool {
    &&& mbr.len() == t.dimension
    &&& box_ordered(mbr)
    &&& volume_fits(spec_common(t.nodes[t.root.index()].mbr, mbr))
    &&& t.data.len() < usize::MAX
}

/// A new data node that is in no leaf leaves the tree as it is.
pub proof fn lemma_push_data_wf(t0: TreeView, d: DataView, lv: Seq<nat>)
    requires
        t0.wf_lv(lv),
        t0.data.len() < usize::MAX,
        d.mbr.len() == t0.dimension,
        box_ordered(d.mbr),
        !d.removed,
    ensures
        t0.push_data(d).wf_lv(lv),
        forall|e: int| t0.attached(e) ==> t0.push_data(d).attached(e),
        t0.fanout_ok() ==> t0.push_data(d).fanout_ok(),
{
    let t1 = t0.push_data(d);
    assert(t1.data.drop_last() =~= t0.data);
    assert forall|e: int| 0 <= e < t1.data.len() implies t1.data_ok(e) by {
        if e < t0.data.len() {
            assert(t0.data_ok(e));
        }
    }
    assert forall|i: int| 0 <= i < t1.nodes.len() implies t1.node_ok(lv, i) by {
        assert(t0.node_ok(lv, i));
        assert forall|k: int| 0 <= k < t1.nodes[i].children.len() implies t1.child_ok(
            lv,
            i,
            k,
        ) by {
            assert(t0.child_ok(lv, i, k));
        }
        assert(t1.child_mbrs(i) =~= t0.child_mbrs(i)) by {
            assert forall|k: int| 0 <= k < t0.nodes[i].children.len() implies t1.child_mbrs(i)[k]
                == t0.child_mbrs(i)[k] by {
                assert(t0.child_ok(lv, i, k));
            }
        }
    }
    assert forall|i: int| 0 <= i < t1.nodes.len() && i != t1.root.index() implies t1.up_ok(
        lv,
        i,
    ) by {
        assert(t0.up_ok(lv, i));
    }
    assert forall|e: int| t0.attached(e) implies t1.attached(e) by {}
    if t0.fanout_ok() {
        assert forall|i: int| 0 <= i < t1.nodes.len() implies t1.fanout_ok_at(i) by {
            assert(t0.fanout_ok_at(i));
        }
    }
}

/// What an insertion of a record with the rectangle `mbr` makes of the
/// tree: the record is the data node `id`, the last of the arena and live;
/// no other data node has changed but in its parent; the tree is well
/// formed and holds the new data node and all that it held; it is within
/// the fanout limits where it was; its root has the common rectangle of
/// the root before and `mbr`; and it is the tree that `inserted` tells,
/// where the new data node went to the leaf that the descent by best
/// children leads to.
pub open spec fn insertion(before: TreeView, after: TreeView, id: NodeId, mbr: Seq<Bounds>) -> bool {
    let with_node = before.push_data(DataView { parent: RecordId::Root, mbr, removed: false });
    &&& id == before.data.len()
    &&& after.wf()
    &&& after.same_data(with_node)
    &&& after.attached(id as int)
    &&& forall|d: int| before.attached(d) ==> after.attached(d)
    &&& before.complete() ==> after.complete()
    &&& before.fanout_ok() ==> after.fanout_ok()
    &&& after.nodes[after.root.index()].mbr == spec_common(
        before.nodes[before.root.index()].mbr,
        mbr,
    )
    &&& exists|leaf: RecordId| #[trigger] went_to(with_node, after, leaf, RecordId::Data(id))
    &&& exists|lv: Seq<nat>| #[trigger]
        with_node.wf_lv(lv) && after == inserted(with_node, lv, id as int)
}

/// Well-formedness does not depend on the freelist.
pub proof fn lemma_wf_freelist(t: TreeView, t2: TreeView)
    requires
        t.wf(),
        t2.nodes == t.nodes,
        t2.root == t.root,
        t2.dimension == t.dimension,
        t2.min_records == t.min_records,
        t2.max_records == t.max_records,
        t2.data.len() == t.data.len(),
        forall|d: int|
            0 <= d < t.data.len() ==> (#[trigger] t2.data[d]).mbr == t.data[d].mbr
                && t2.data[d].parent == t.data[d].parent,
        t2.live_num == live_count(t2.data),
    ensures
        t2.wf(),
        t.fanout_ok() ==> t2.fanout_ok(),
        forall|d: int| t.attached(d) <==> t2.attached(d),
{
    let lv = choose|lv: Seq<nat>| t.wf_lv(lv);
    assert forall|d: int| 0 <= d < t2.data.len() implies t2.data_ok(d) by {
        assert(t.data_ok(d));
    }
    assert forall|i: int| 0 <= i < t2.nodes.len() implies t2.node_ok(lv, i) by {
        assert(t.node_ok(lv, i));
        assert forall|k: int| 0 <= k < t2.nodes[i].children.len() implies t2.child_ok(
            lv,
            i,
            k,
        ) by {
            assert(t.child_ok(lv, i, k));
        }
        assert(t2.child_mbrs(i) =~= t.child_mbrs(i)) by {
            assert forall|k: int| 0 <= k < t.nodes[i].children.len() implies t2.child_mbrs(i)[k]
                == t.child_mbrs(i)[k] by {
                assert(t.child_ok(lv, i, k));
            }
        }
    }
    assert forall|i: int| 0 <= i < t2.nodes.len() && i != t2.root.index() implies t2.up_ok(
        lv,
        i,
    ) by {
        assert(t.up_ok(lv, i));
    }
    assert(t2.wf_lv(lv));
    if t.fanout_ok() {
        assert forall|i: int| 0 <= i < t2.nodes.len() implies t2.fanout_ok_at(i) by {
            assert(t.fanout_ok_at(i));
        }
    }
}

impl<ObjectT> LRTree<ObjectT> {
    /// The tree is well formed.
    pub open spec fn wf(&self) -> bool {
        self@.wf()
    }

    /// The stored objects, by data node.
    pub open spec fn payloads(&self) -> Seq<ObjectT> {
        self.obj_space.payloads()
    }

    /// The tree over `obj_space`. Where the space holds live data and its
    /// tree is not built yet, the tree is built, with the default quantile.
    pub fn with_obj_space(obj_space: ObjSpace<ObjectT>) -> (r: Self)
        requires
            obj_space@.wf(),
            unordered(obj_space@) ==> volume_fits(live_hull(obj_space@)),
        ensures
            r.wf(),
            r.payloads() == obj_space.payloads(),
            !unordered(obj_space@) ==> r.obj_space == obj_space,
            unordered(obj_space@) ==> r@ == rebuilt_tree(obj_space@, DEFAULT_ALPHA as nat),
            unordered(obj_space@) ==> rebuilt(obj_space@, r@),
    {
        let mut tree = LRTree { obj_space };
        if tree.obj_space.is_unordered() {
            proof {
                let lv = choose|lv: Seq<nat>| tree@.wf_lv(lv);
                assert(tree@.wf_lv(lv));
            }
            rebuild_obj_space(&mut tree.obj_space, DEFAULT_ALPHA);
        }
        tree
    }

    /// Whether `rebuild` may be called: decides whether the volume of the
    /// common rectangle of the live data fits in `i64`.
    pub fn can_rebuild(&self) -> (r: bool)
        requires
            self.wf(),
        ensures
            r == volume_fits(live_hull(self@)),
    {
        proof {
            let lv = choose|lv: Seq<nat>| self@.wf_lv(lv);
            assert(self@.wf_lv(lv));
        }
        can_rebuild_obj_space(&self.obj_space)
    }

    /// Makes the tree anew over all live data nodes, with `alpha`
    /// hundredths as the quantile of the partitioning. Parked data nodes
    /// leave the tree. Where no data node is live, nothing is done.
    pub fn rebuild(&mut self, alpha: usize)
        requires
            old(self).wf(),
            alpha <= 50,
            volume_fits(live_hull(old(self)@)),
        ensures
            final(self).wf(),
            old(self)@.live_num == 0 ==> final(self)@ == old(self)@,
            old(self)@.live_num > 0 ==> final(self)@ == rebuilt_tree(old(self)@, alpha as nat),
            old(self)@.live_num > 0 ==> rebuilt(old(self)@, final(self)@),
            final(self).payloads() == old(self).payloads(),
    {
        proof {
            let lv = choose|lv: Seq<nat>| self@.wf_lv(lv);
            assert(self@.wf_lv(lv));
        }
        rebuild_obj_space(&mut self.obj_space, alpha);
    }

    /// Lets `builder` build, unless it has built, and takes its space in
    /// place of the tree's own.
    pub fn set_build(&mut self, builder: LRTreeBuilder<ObjectT>)
        requires
            builder.ready(),
            builder.is_built || builder.obj_space@.live_num == 0 ==> builder.obj_space@.wf(),
        ensures
            final(self).wf(),
            final(self).payloads() == builder.obj_space.payloads(),
            builder.is_built || builder.obj_space@.live_num == 0 ==> final(self)@
                == builder.obj_space@,
            !builder.is_built && builder.obj_space@.live_num > 0 ==> final(self)@ == rebuilt_tree(
                builder.obj_space@,
                builder.alpha as nat,
            ) && rebuilt(builder.obj_space@, final(self)@),
    {
        let mut builder = builder;
        builder.build();
        self.obj_space = builder.obj_space;
    }

    /// Keeps of the live data nodes of the tree whose rectangles intersect
    /// `area` those for which `predicate` holds, and parks the others in
    /// the freelist.
    pub fn retain<P>(&mut self, area: &MBR, predicate: P) where
        P: Fn(&ObjSpace<ObjectT>, NodeId) -> bool,

        requires
            old(self).wf(),
            area@.len() == 0 || area@.len() == old(self)@.dimension,
            forall|id: NodeId|
                old(self)@.found(area@).contains(id) ==> call_requires(
                    predicate,
                    (&old(self).obj_space, id),
                ),
        ensures
            final(self).wf(),
            final(self)@.nodes == old(self)@.nodes,
            final(self)@.root == old(self)@.root,
            final(self)@.data.len() == old(self)@.data.len(),
            forall|d: int|
                0 <= d < old(self)@.data.len() ==> (#[trigger] final(self)@.data[d]).mbr == old(
                    self,
                )@.data[d].mbr && final(self)@.data[d].parent == old(self)@.data[d].parent,
            forall|d: int|
                0 <= d < old(self)@.data.len() && !old(self)@.found(area@).contains(d as usize)
                    ==> (#[trigger] final(self)@.data[d]).removed == old(self)@.data[d].removed,
            forall|d: int|
                0 <= d < old(self)@.data.len() && old(self)@.found(area@).contains(d as usize)
                    ==> call_ensures(
                    predicate,
                    (&old(self).obj_space, d as usize),
                    !(#[trigger] final(self)@.data[d]).removed,
                ),
            final(self).payloads() == old(self).payloads(),
            old(self)@.fanout_ok() ==> final(self)@.fanout_ok(),
            old(self)@.complete() ==> final(self)@.complete(),
    {
        let ids = search_obj_space(&self.obj_space, area);
        let ghost found = self@.found(area@);
        let mut remove_list: Vec<NodeId> = Vec::new();
        let mut k: usize = 0;
        while k < ids.len()
            invariant
                k <= ids.len(),
                self == old(self),
                ids@.to_set() == found,
                found == self@.found(area@),
                forall|id: NodeId|
                    found.contains(id) ==> call_requires(predicate, (&self.obj_space, id)),
                forall|w: int|
                    0 <= w < remove_list@.len() ==> found.contains(#[trigger] remove_list@[w])
                        && call_ensures(predicate, (&self.obj_space, remove_list@[w]), false),
                forall|w: int|
                    0 <= w < k ==> remove_list@.contains(#[trigger] ids@[w]) || call_ensures(
                        predicate,
                        (&self.obj_space, ids@[w]),
                        true,
                    ),
            decreases ids.len() - k,
        {
            let data_id = ids[k];
            let ghost before = remove_list@;
            proof {
                assert(ids@.contains(data_id));
                assert(ids@.to_set().contains(data_id));
                assert(found.contains(data_id));
            }
            let keep = predicate(&self.obj_space, data_id);
            if !keep {
                remove_list.push(data_id);
            }
            proof {
                assert(ids@.contains(data_id));
                assert forall|w: int| 0 <= w < k + 1 implies remove_list@.contains(
                    #[trigger] ids@[w],
                ) || call_ensures(predicate, (&self.obj_space, ids@[w]), true) by {
                    if w < k {
                        if before.contains(ids@[w]) {
                            let x = choose|x: int| 0 <= x < before.len() && before[x] == ids@[w];
                            assert(remove_list@[x] == ids@[w]);
                        }
                    } else if !keep {
                        assert(remove_list@[before.len() as int] == data_id);
                    }
                }
            }
            k += 1;
        }
        let ghost removed = remove_list@;
        self.obj_space.mark_as_removed(remove_list);
        proof {
            lemma_wf_freelist(old(self)@, self@);
            assert forall|d: int|
                0 <= d < old(self)@.data.len() && !found.contains(d as usize) implies (
            #[trigger] self@.data[d]).removed == old(self)@.data[d].removed by {
                if removed.contains(d as usize) {
                    let w = choose|w: int| 0 <= w < removed.len() && removed[w] == d as usize;
                    assert(found.contains(removed[w]));
                }
            }
            assert forall|d: int|
                0 <= d < old(self)@.data.len() && found.contains(d as usize) implies call_ensures(
                predicate,
                (&old(self).obj_space, d as usize),
                !(#[trigger] self@.data[d]).removed,
            ) by {
                assert(ids@.contains(d as usize));
                let w = choose|w: int| 0 <= w < ids@.len() && ids@[w] == d as usize;
                assert(old(self)@.is_live(d));
                if removed.contains(d as usize) {
                    let x = choose|x: int| 0 <= x < removed.len() && removed[x] == d as usize;
                    assert(call_ensures(predicate, (&old(self).obj_space, removed[x]), false));
                } else {
                    assert(removed.contains(ids@[w]) || call_ensures(
                        predicate,
                        (&old(self).obj_space, ids@[w]),
                        true,
                    ));
                }
            }
            if old(self)@.complete() {
                assert forall|d: int| self@.is_live(d) implies self@.attached(d) by {
                    assert(old(self)@.is_live(d));
                }
            }
        }
    }

    /// The object space of the tree, to read.
    pub fn lock_obj_space(&self) -> (r: &ObjSpace<ObjectT>)
        ensures
            *r == self.obj_space,
    {
        &self.obj_space
    }

    /// Hands the object and the rectangle of a live data node to `handler`
    /// and returns what it returns.
    pub fn access_object<H, R>(&self, record_id: NodeId, mut handler: H) -> (r: R) where
        H: FnMut(&ObjectT, &MBR) -> R,

        requires
            self@.is_live(record_id as int),
            forall|mbr: &MBR|
                mbr@ == self@.data[record_id as int].mbr ==> call_requires(
                    handler,
                    (&self.payloads()[record_id as int], mbr),
                ),
        ensures
            exists|mbr: &MBR|
                mbr@ == self@.data[record_id as int].mbr && #[trigger] call_ensures(
                    handler,
                    (&self.payloads()[record_id as int], mbr),
                    r,
                ),
    {
        let node = self.obj_space.get_data(record_id);
        let r = handler(&node.payload, &node.mbr);
        proof {
            assert(call_ensures(handler, (&self.payloads()[record_id as int], &node.mbr), r));
        }
        r
    }

    /// The steps of a walk of the tree, depth first from the root: a node
    /// is entered before its children and left after them, the children
    /// come in their order. Where no data node is live, there is no step.
    pub fn walk(&self) -> (steps: Vec<Step>)
        requires
            self.wf(),
        ensures
            self@.live_num == 0 ==> steps@.len() == 0,
            self@.live_num != 0 ==> exists|lv: Seq<nat>| #[trigger]
                self@.wf_lv(lv) && steps@ == spec_walk(self@, lv, self@.root),
            forall|k: int| 0 <= k < steps@.len() ==> step_ok(self@, #[trigger] steps@[k]),
    {
        let mut steps: Vec<Step> = Vec::new();
        if self.obj_space.is_empty() {
            return steps;
        }
        let ghost lv = choose|lv: Seq<nat>| self@.wf_lv(lv);
        walk_helper(&self.obj_space, Ghost(lv), self.obj_space.root_id, &mut steps);
        proof {
            assert(steps@ =~= spec_walk(self@, lv, self@.root));
            assert(self@.wf_lv(lv) && steps@ == spec_walk(self@, lv, self@.root));
        }
        steps
    }

    /// Walks the tree and calls the visitor at every step of `walk`, in
    /// order, with the record that the step names: the visitor is in the
    /// end what these calls, one after the other, make of it. Where no data
    /// node is live, the visitor is not called.
    pub fn visit<V: Visitor<ObjectT>>(&self, visitor: &mut V)
        requires
            self.wf(),
        ensures
            self@.live_num == 0 ==> *final(visitor) == *old(visitor),
            self@.live_num != 0 ==> exists|lv: Seq<nat>| #[trigger]
                self@.wf_lv(lv) && walked(
                    self.obj_space,
                    *old(visitor),
                    spec_walk(self@, lv, self@.root),
                    *final(visitor),
                ),
    {
        let steps = self.walk();
        let mut k: usize = 0;
        proof {
            assert(steps@.take(0) =~= Seq::<Step>::empty());
        }
        while k < steps.len()
            invariant
                k <= steps.len(),
                forall|k: int| 0 <= k < steps@.len() ==> step_ok(self@, #[trigger] steps@[k]),
                walked(self.obj_space, *old(visitor), steps@.take(k as int), *visitor),
            decreases steps.len() - k,
        {
            let ghost before = *visitor;
            match steps[k] {
                Step::Enter(id) => {
                    visitor.enter_node(id, self.obj_space.get_node(id));
                },
                Step::Leave(id) => {
                    visitor.leave_node(id, self.obj_space.get_node(id));
                },
                Step::Data(id) => {
                    visitor.visit_data(id, self.obj_space.get_data(id.as_node_id()));
                },
            }
            proof {
                let next = steps@.take(k + 1);
                assert(next.drop_last() =~= steps@.take(k as int));
                assert(next.last() == steps@[k as int]);
                assert(stepped(self.obj_space, before, next.last(), *visitor));
                assert(walked(self.obj_space, *old(visitor), next.drop_last(), before));
            }
            k += 1;
        }
        proof {
            assert(steps@.take(steps@.len() as int) =~= steps@);
            if self@.live_num != 0 {
                let lv = choose|lv: Seq<nat>| #[trigger]
                    self@.wf_lv(lv) && steps@ == spec_walk(self@, lv, self@.root);
                assert(self@.wf_lv(lv) && walked(
                    self.obj_space,
                    *old(visitor),
                    spec_walk(self@, lv, self@.root),
                    *visitor,
                ));
            }
        }
    }

    /// The live data nodes of the tree whose rectangles intersect `area`.
    pub fn search(&self, area: &MBR) -> (r: Vec<NodeId>)
        requires
            self.wf(),
            area@.len() == 0 || area@.len() == self@.dimension,
        ensures
            r@.to_set() == self@.found(area@),
            r@.no_duplicates(),
            self@.complete() ==> r@.to_set() == self@.live_in(area@),
    {
        let r = search_obj_space(&self.obj_space, area);
        proof {
            if self@.complete() {
                assert(self@.found(area@) =~= self@.live_in(area@));
            }
        }
        r
    }

    /// Calls `handler` on each live data node of the tree of `obj_space`
    /// whose rectangle intersects `area`.
    pub fn search_access_obj_space<Handler>(
        obj_space: &ObjSpace<ObjectT>,
        area: &MBR,
        mut handler: Handler,
    ) where Handler: FnMut(&ObjSpace<ObjectT>, NodeId)
        requires
            obj_space@.wf(),
            area@.len() == 0 || area@.len() == obj_space@.dimension,
            forall|id: NodeId|
                obj_space@.found(area@).contains(id) ==> call_requires(handler, (obj_space, id)),
    {
        let ids = search_obj_space(obj_space, area);
        let mut k: usize = 0;
        while k < ids.len()
            invariant
                k <= ids.len(),
                ids@.to_set() == obj_space@.found(area@),
                forall|id: NodeId|
                    obj_space@.found(area@).contains(id) ==> call_requires(
                        handler,
                        (obj_space, id),
                    ),
            decreases ids.len() - k,
        {
            proof {
                assert(ids@.contains(ids@[k as int]));
                assert(ids@.to_set().contains(ids@[k as int]));
                assert(obj_space@.found(area@).contains(ids@[k as int]));
            }
            handler(obj_space, ids[k]);
            k += 1;
        }
    }

    /// Calls `handler` on each live data node of the tree whose rectangle
    /// intersects `area`.
    pub fn search_access<H>(&self, area: &MBR, handler: H) where
        H: FnMut(&ObjSpace<ObjectT>, NodeId),

        requires
            self.wf(),
            area@.len() == 0 || area@.len() == self@.dimension,
            forall|id: NodeId|
                self@.found(area@).contains(id) ==> call_requires(
                    handler,
                    (&self.obj_space, id),
                ),
    {
        Self::search_access_obj_space(&self.obj_space, area, handler);
    }

    /// Parks the data nodes that `data_ids` names in the freelist.
    pub fn mark_as_removed(&mut self, data_ids: Vec<NodeId>)
        requires
            old(self).wf(),
        ensures
            final(self).wf(),
            final(self)@.nodes == old(self)@.nodes,
            final(self)@.root == old(self)@.root,
            final(self)@.data.len() == old(self)@.data.len(),
            forall|d: int|
                0 <= d < old(self)@.data.len() ==> (#[trigger] final(self)@.data[d]) == (DataView {
                    removed: old(self)@.data[d].removed || data_ids@.contains(d as usize),
                    ..old(self)@.data[d]
                }),
            final(self).payloads() == old(self).payloads(),
            old(self)@.fanout_ok() ==> final(self)@.fanout_ok(),
            old(self)@.complete() ==> final(self)@.complete(),
    {
        self.obj_space.mark_as_removed(data_ids);
        proof {
            lemma_wf_freelist(old(self)@, self@);
            if old(self)@.complete() {
                assert forall|d: int| self@.is_live(d) implies self@.attached(d) by {
                    assert(old(self)@.is_live(d));
                }
            }
        }
    }

    /// Takes every data node out of the freelist.
    pub fn restore_removed(&mut self)
        requires
            old(self).wf(),
        ensures
            final(self).wf(),
            final(self)@.nodes == old(self)@.nodes,
            final(self)@.root == old(self)@.root,
            final(self)@.data.len() == old(self)@.data.len(),
            forall|d: int|
                0 <= d < old(self)@.data.len() ==> (#[trigger] final(self)@.data[d]) == (DataView {
                    removed: false,
                    ..old(self)@.data[d]
                }),
            final(self).payloads() == old(self).payloads(),
            old(self)@.fanout_ok() ==> final(self)@.fanout_ok(),
    {
        self.obj_space.restore_removed();
        proof {
            lemma_wf_freelist(old(self)@, self@);
        }
    }

    /// Whether `insert` may be called with `mbr`: decides `insertable`.
    pub fn can_insert(&self, mbr: &MBR) -> (r: bool)
        requires
            self.wf(),
        ensures
            r == insertable(self@, mbr@),
    {
        let ghost lv = choose|lv: Seq<nat>| self@.wf_lv(lv);
        proof {
            assert(self@.node_ok(lv, self@.root.index()));
        }
        if mbr.dimension() != self.obj_space.dimension || !mbr.is_ordered() {
            return false;
        }
        if self.obj_space.data_nodes.len() == usize::MAX {
            return false;
        }
        let common = common_mbr(self.obj_space.get_root_mbr(), mbr);
        common.fits()
    }

    /// Stores `object` with the rectangle `mbr` and puts it into the tree.
    /// Returns the index of the new data node.
    pub fn insert(&mut self, object: ObjectT, mbr: MBR) -> (id: NodeId)
        requires
            old(self).wf(),
            insertable(old(self)@, mbr@),
        ensures
            insertion(old(self)@, final(self)@, id, mbr@),
            final(self).payloads() == old(self).payloads().push(object),
    {
        let mut hooks = NoHooks;
        self.insert_transaction(object, mbr, &mut hooks)
    }

    /// `insert`, with `helper.before_insert` called once the data node is
    /// in the arena and `helper.after_insert` once it is in the tree.
    pub fn insert_transaction<H: InsertHandler<ObjectT>>(
        &mut self,
        object: ObjectT,
        mbr: MBR,
        helper: &mut H,
    ) -> (id: NodeId)
        requires
            old(self).wf(),
            insertable(old(self)@, mbr@),
        ensures
            insertion(old(self)@, final(self)@, id, mbr@),
            final(self).payloads() == old(self).payloads().push(object),
    {
        let ghost t0 = self@;
        let ghost lv = choose|lv: Seq<nat>| t0.wf_lv(lv);
        proof {
            crate::model::lemma_live_count_bound(t0.data);
        }
        let id = self.obj_space.make_data_node(object, mbr);
        let ghost t1 = self@;
        proof {
            lemma_push_data_wf(
                t0,
                DataView { parent: RecordId::Root, mbr: mbr@, removed: false },
                lv,
            );
        }
        helper.before_insert(&self.obj_space, id);
        insert_helper(&mut self.obj_space, RecordId::Data(id));
        helper.after_insert(&self.obj_space, id);
        proof {
            let leaf = choose|leaf: RecordId| #[trigger]
                went_to(t1, self@, leaf, RecordId::Data(id));
            assert(went_to(t1, self@, leaf, RecordId::Data(id)));
            let lv1 = choose|lv1: Seq<nat>| #[trigger]
                t1.wf_lv(lv1) && self@ == inserted(t1, lv1, id as int);
            assert(t1.wf_lv(lv1) && self@ == inserted(t1, lv1, id as int));
            if t0.complete() {
                assert forall|d: int| self@.is_live(d) implies self@.attached(d) by {
                    if d < t0.data.len() {
                        assert(t1.data[d].removed == t0.data[d].removed);
                        assert(t0.is_live(d));
                        assert(t1.attached(d));
                    }
                }
            }
        }
        id
    }
}

} // verus!
