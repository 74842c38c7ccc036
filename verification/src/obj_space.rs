//! The object space: the arena of internal nodes, the arena of data nodes
//! with its freelist, and the steps by which the tree is changed.

use crate::mbr::{box_ordered, common_mbr, compatible, MBR};
use crate::model::{
    config_ok, lemma_fresh_wf, lemma_live_count_all, lemma_live_count_remove, lemma_live_ids,
    live_count, live_ids, DataView, NodeView, TreeView,
};
use vstd::pervasive::cloned;
use crate::node::{DataNode, InternalNode, Node, NodeId, RecordId, RecordIdKind};
use vstd::prelude::*;

verus! {

/// A slot of the data arena: the data node, and whether it is parked in the
/// freelist.
#[derive(Debug)]
pub struct DataSlot<ObjectT> {
    pub node: DataNode<ObjectT>,
    pub removed: bool,
}

/// Both arenas, the limits that the tree was made with, and its root.
#[derive(Debug)]
pub struct ObjSpace<ObjectT> {
    pub nodes: Vec<InternalNode>,
    pub data_nodes: Vec<DataSlot<ObjectT>>,
    pub live_num: usize,
    pub dimension: usize,
    pub min_records: usize,
    pub max_records: usize,
    pub root_id: RecordId,
}

/// The model of an internal node.
pub open spec fn node_view(n: InternalNode) -> NodeView {
    NodeView { parent: n.parent_id, mbr: n.mbr@, children: n.payload@ }
}

/// The model of a slot of the data arena.
pub open spec fn slot_view<ObjectT>(s: DataSlot<ObjectT>) -> DataView {
    DataView { parent: s.node.parent_id, mbr: s.node.mbr@, removed: s.removed }
}

impl<ObjectT> View for ObjSpace<ObjectT> {
    type V = TreeView;

    open spec fn view(&self) -> TreeView {
        TreeView {
            nodes: Seq::new(self.nodes@.len(), |i: int| node_view(self.nodes@[i])),
            data: Seq::new(self.data_nodes@.len(), |d: int| slot_view(self.data_nodes@[d])),
            live_num: self.live_num as nat,
            dimension: self.dimension as nat,
            min_records: self.min_records as nat,
            max_records: self.max_records as nat,
            root: self.root_id,
        }
    }
}

impl<ObjectT> ObjSpace<ObjectT> {
    /// The stored objects, by data node.
    pub open spec fn payloads(&self) -> Seq<ObjectT> {
        Seq::new(self.data_nodes@.len(), |d: int| self.data_nodes@[d].node.payload)
    }

    /// An empty space: one empty leaf, which is the root.
    pub fn new(dimension: usize, min_records: usize, max_records: usize) -> (r: Self)
        requires
            config_ok(dimension as nat, min_records as nat, max_records as nat),
        ensures
            r@ == TreeView::fresh(
                Seq::empty(),
                dimension as nat,
                min_records as nat,
                max_records as nat,
            ),
            r.payloads() == Seq::<ObjectT>::empty(),
            r@.wf(),
            r@.fanout_ok(),
            r@.complete(),
    {
        let mut nodes: Vec<InternalNode> = Vec::new();
        nodes.push(InternalNode::new(max_records));
        let r = ObjSpace {
            nodes,
            data_nodes: Vec::new(),
            live_num: 0,
            dimension,
            min_records,
            max_records,
            root_id: RecordId::Leaf(0),
        };
        proof {
            let f = TreeView::fresh(
                Seq::empty(),
                dimension as nat,
                min_records as nat,
                max_records as nat,
            );
            assert(r@.nodes[0].mbr =~= f.nodes[0].mbr);
            assert(r@.nodes[0].children =~= f.nodes[0].children);
            assert(r@.nodes =~= f.nodes);
            assert(r@.data =~= f.data);
            assert(r.payloads() =~= Seq::<ObjectT>::empty());
            lemma_fresh_wf(
                Seq::empty(),
                dimension as nat,
                min_records as nat,
                max_records as nat,
            );
        }
        r
    }

    /// Wipes the internal arena and leaves one empty leaf as the root. The
    /// data nodes stay as they are.
    pub fn clear_tree_structure(&mut self)
        ensures
            final(self)@ == (TreeView {
                live_num: old(self)@.live_num,
                ..TreeView::fresh(
                    old(self)@.data,
                    old(self)@.dimension,
                    old(self)@.min_records,
                    old(self)@.max_records,
                )
            }),
            final(self).payloads() == old(self).payloads(),
    {
        self.nodes.clear();
        self.nodes.push(InternalNode::new(self.max_records));
        self.root_id = RecordId::Leaf(0);
        proof {
            let f = TreeView::fresh(
                old(self)@.data,
                old(self)@.dimension,
                old(self)@.min_records,
                old(self)@.max_records,
            );
            assert(self@.nodes[0].mbr =~= f.nodes[0].mbr);
            assert(self@.nodes[0].children =~= f.nodes[0].children);
            assert(self@.nodes =~= f.nodes);
            assert(self@.data =~= f.data);
            assert(self.payloads() =~= old(self).payloads());
        }
    }

    /// Allocates an empty node with an undefined rectangle.
    pub fn make_node(&mut self, node_id_kind: RecordIdKind) -> (id: RecordId)
        ensures
            id == RecordId::spec_from_node_id(old(self).nodes.len(), node_id_kind),
            final(self)@ == old(self)@.push_node(
                NodeView { parent: RecordId::Root, mbr: Seq::empty(), children: Seq::empty() },
            ),
            final(self).payloads() == old(self).payloads(),
    {
        self.make_node_with_mbr(node_id_kind, MBR::undefined())
    }

    /// Allocates an empty node with the rectangle given.
    pub fn make_node_with_mbr(&mut self, node_id_kind: RecordIdKind, mbr: MBR) -> (id: RecordId)
        ensures
            id == RecordId::spec_from_node_id(old(self).nodes.len(), node_id_kind),
            final(self)@ == old(self)@.push_node(
                NodeView { parent: RecordId::Root, mbr: mbr@, children: Seq::empty() },
            ),
            final(self).payloads() == old(self).payloads(),
    {
        let id = self.nodes.len();
        self.nodes.push(InternalNode::with_mbr(self.max_records, mbr));
        proof {
            let t = old(self)@.push_node(
                NodeView { parent: RecordId::Root, mbr: mbr@, children: Seq::empty() },
            );
            assert(self@.nodes[id as int].children =~= Seq::<RecordId>::empty());
            assert(self@.nodes =~= t.nodes);
            assert(self@.data =~= t.data);
            assert(self.payloads() =~= old(self).payloads());
        }
        RecordId::from_node_id(id, node_id_kind)
    }

    /// Allocates a data node for `object`. It is live and not yet in the
    /// tree: its parent is `Root`.
    pub fn make_data_node(&mut self, object: ObjectT, mbr: MBR) -> (id: NodeId)
        requires
            old(self).live_num < usize::MAX,
        ensures
            id == old(self)@.data.len(),
            final(self)@ == old(self)@.push_data(
                DataView { parent: RecordId::Root, mbr: mbr@, removed: false },
            ),
            final(self).payloads() == old(self).payloads().push(object),
    {
        let id = self.data_nodes.len();
        self.data_nodes.push(
            DataSlot { node: Node { parent_id: RecordId::Root, mbr, payload: object }, removed: false },
        );
        self.live_num = self.live_num + 1;
        proof {
            let t = old(self)@.push_data(
                DataView { parent: RecordId::Root, mbr: mbr@, removed: false },
            );
            assert(self@.nodes =~= t.nodes);
            assert(self@.data =~= t.data);
            assert(self.payloads() =~= old(self).payloads().push(object));
        }
        id
    }

    /// Number of live data nodes.
    pub fn data_num(&self) -> (n: usize)
        ensures
            n == self@.live_num,
    {
        self.live_num
    }

    /// No data node is live.
    pub fn is_empty(&self) -> (r: bool)
        ensures
            r == (self@.live_num == 0),
    {
        self.live_num == 0
    }

    /// There is live data, but the root has no children: the data was loaded
    /// and the tree is not built yet.
    pub fn is_unordered(&self) -> (r: bool)
        requires
            self@.root.is_node(),
            self@.root.index() < self@.nodes.len(),
        ensures
            r == (self@.live_num != 0 && self@.nodes[self@.root.index()].children.len() == 0),
    {
        !self.is_empty() && self.nodes[self.root_id.as_node_id()].payload.len() == 0
    }

    /// The node of the internal arena that `id` names.
    pub fn get_node(&self, id: RecordId) -> (node: &InternalNode)
        requires
            id.is_node(),
            id.index() < self@.nodes.len(),
        ensures
            *node == self.nodes@[id.index()],
            node_view(*node) == self@.nodes[id.index()],
    {
        &self.nodes[id.as_node_id()]
    }

    /// The data node at `id`, parked or not.
    pub fn get_data(&self, id: NodeId) -> (node: &DataNode<ObjectT>)
        requires
            id < self@.data.len(),
        ensures
            *node == self.data_nodes@[id as int].node,
            node.parent_id == self@.data[id as int].parent,
            node.mbr@ == self@.data[id as int].mbr,
            node.payload == self.payloads()[id as int],
    {
        &self.data_nodes[id].node
    }

    /// The node of the internal arena that `id` names, to change.
    pub fn get_node_mut(&mut self, id: RecordId) -> (node: &mut InternalNode)
        requires
            id.is_node(),
            id.index() < old(self)@.nodes.len(),
        ensures
            *node == old(self).nodes@[id.index()],
            final(self).nodes@ == old(self).nodes@.update(id.index(), *final(node)),
            final(self).data_nodes == old(self).data_nodes,
            final(self).live_num == old(self).live_num,
            final(self).dimension == old(self).dimension,
            final(self).min_records == old(self).min_records,
            final(self).max_records == old(self).max_records,
            final(self).root_id == old(self).root_id,
    {
        let i = id.as_node_id();
        &mut self.nodes[i]
    }

    /// The data node at `id`, parked or not, to change.
    pub fn get_data_mut(&mut self, id: NodeId) -> (node: &mut DataNode<ObjectT>)
        requires
            id < old(self)@.data.len(),
        ensures
            *node == old(self).data_nodes@[id as int].node,
            final(self).data_nodes@ == old(self).data_nodes@.update(
                id as int,
                DataSlot { node: *final(node), removed: old(self).data_nodes@[id as int].removed },
            ),
            final(self).nodes == old(self).nodes,
            final(self).live_num == old(self).live_num,
            final(self).dimension == old(self).dimension,
            final(self).min_records == old(self).min_records,
            final(self).max_records == old(self).max_records,
            final(self).root_id == old(self).root_id,
    {
        &mut self.data_nodes[id].node
    }

    /// Whether data node `id` is parked in the freelist.
    pub fn is_removed(&self, id: NodeId) -> (r: bool)
        requires
            id < self@.data.len(),
        ensures
            r == self@.data[id as int].removed,
    {
        self.data_nodes[id].removed
    }

    /// The rectangle of the live data node at `id`.
    pub fn get_data_mbr(&self, id: NodeId) -> (mbr: &MBR)
        requires
            self@.is_live(id as int),
        ensures
            mbr@ == self@.data[id as int].mbr,
    {
        &self.data_nodes[id].node.mbr
    }

    /// The object of the live data node at `id`.
    pub fn get_data_payload(&self, id: NodeId) -> (payload: &ObjectT)
        requires
            self@.is_live(id as int),
        ensures
            *payload == self.payloads()[id as int],
    {
        &self.data_nodes[id].node.payload
    }

    /// The rectangle of the root.
    pub fn get_root_mbr(&self) -> (mbr: &MBR)
        requires
            self@.root.is_node(),
            self@.root.index() < self@.nodes.len(),
        ensures
            mbr@ == self@.nodes[self@.root.index()].mbr,
    {
        &self.nodes[self.root_id.as_node_id()].mbr
    }

    /// Rectangle of the record that `id` names.
    pub fn get_mbr(&self, id: RecordId) -> (mbr: &MBR)
        requires
            self@.resolves(id),
        ensures
            mbr@ == self@.rec_mbr(id),
    {
        match id {
            RecordId::Data(d) => &self.data_nodes[d].node.mbr,
            _ => &self.nodes[id.as_node_id()].mbr,
        }
    }

    /// Sets the rectangle of the record that `id` names.
    pub fn set_mbr(&mut self, id: RecordId, mbr: MBR)
        requires
            old(self)@.resolves(id),
        ensures
            final(self)@ == old(self)@.set_mbr(id, mbr@),
            final(self).payloads() == old(self).payloads(),
    {
        match id {
            RecordId::Data(d) => {
                self.data_nodes[d].node.mbr = mbr;
            },
            _ => {
                let i = id.as_node_id();
                self.nodes[i].mbr = mbr;
            },
        }
        proof {
            let t = old(self)@.set_mbr(id, mbr@);
            assert(self@.nodes =~= t.nodes);
            assert(self@.data =~= t.data);
            assert(self.payloads() =~= old(self).payloads());
        }
    }

    /// Sets the parent of the record that `id` names.
    pub fn set_parent_info(&mut self, id: RecordId, parent_id: RecordId)
        requires
            old(self)@.resolves(id),
        ensures
            final(self)@ == old(self)@.set_parent(id, parent_id),
            final(self).payloads() == old(self).payloads(),
    {
        match id {
            RecordId::Data(d) => {
                self.data_nodes[d].node.parent_id = parent_id;
            },
            _ => {
                let i = id.as_node_id();
                self.nodes[i].parent_id = parent_id;
            },
        }
        proof {
            let t = old(self)@.set_parent(id, parent_id);
            assert(self@.nodes =~= t.nodes);
            assert(self@.data =~= t.data);
            assert(self.payloads() =~= old(self).payloads());
        }
    }

    /// Appends `child_id` to node `id` and widens the node's rectangle by the
    /// child's.
    pub fn add_child(&mut self, id: RecordId, child_id: RecordId)
        requires
            id.is_node(),
            id.index() < old(self)@.nodes.len(),
            old(self)@.resolves(child_id),
            compatible(old(self)@.nodes[id.index()].mbr, old(self)@.rec_mbr(child_id)),
        ensures
            final(self)@ == old(self)@.add_child(id.index(), child_id),
            final(self).payloads() == old(self).payloads(),
    {
        let i = id.as_node_id();
        let child_mbr = self.get_mbr(child_id).clone();
        let new_mbr = if self.nodes[i].payload.len() == 0 {
            child_mbr
        } else {
            common_mbr(&self.nodes[i].mbr, &child_mbr)
        };
        self.nodes[i].payload.push(child_id);
        self.nodes[i].mbr = new_mbr;
        proof {
            let t = old(self)@.add_child(id.index(), child_id);
            assert(self@.nodes =~= t.nodes);
            assert(self@.data =~= t.data);
            assert(self.payloads() =~= old(self).payloads());
        }
    }

    /// Appends `child_id` to node `id` and leaves the node's rectangle as it
    /// is.
    pub fn add_child_raw(&mut self, id: RecordId, child_id: RecordId)
        requires
            id.is_node(),
            id.index() < old(self)@.nodes.len(),
        ensures
            final(self)@ == old(self)@.push_child(id.index(), child_id),
            final(self).payloads() == old(self).payloads(),
    {
        let i = id.as_node_id();
        self.nodes[i].payload.push(child_id);
        proof {
            let t = old(self)@.push_child(id.index(), child_id);
            assert(self@.nodes =~= t.nodes);
            assert(self@.data =~= t.data);
            assert(self.payloads() =~= old(self).payloads());
        }
    }

    /// Sets the root of the tree.
    pub fn set_root_id(&mut self, root_id: RecordId)
        ensures
            final(self)@ == old(self)@.set_root(root_id),
            final(self).payloads() == old(self).payloads(),
    {
        self.root_id = root_id;
        proof {
            assert(self@.nodes =~= old(self)@.nodes);
            assert(self@.data =~= old(self)@.data);
            assert(self.payloads() =~= old(self).payloads());
        }
    }
}


/// The data nodes that `with_data` makes of its pairs: each live, with the
/// rectangle of its pair, and not yet in the tree.
pub open spec fn loaded<ObjectT>(data: Seq<(ObjectT, MBR)>) -> Seq<DataView> {
    Seq::new(
        data.len(),
        |k: int| DataView { parent: RecordId::Root, mbr: data[k].1@, removed: false },
    )
}

/// The objects of the pairs, in order.
pub open spec fn loaded_objects<ObjectT>(data: Seq<(ObjectT, MBR)>) -> Seq<ObjectT> {
    Seq::new(data.len(), |k: int| data[k].0)
}

impl<ObjectT> ObjSpace<ObjectT> {
    /// A space that holds `data`, each pair as a live data node in the order
    /// given, with a tree that is not built yet.
    pub fn with_data(
        dimension: usize,
        min_records: usize,
        max_records: usize,
        data: Vec<(ObjectT, MBR)>,
    ) -> (r: Self)
        requires
            config_ok(dimension as nat, min_records as nat, max_records as nat),
            forall|k: int|
                0 <= k < data@.len() ==> (#[trigger] data@[k]).1@.len() == dimension
                    && box_ordered(data@[k].1@),
        ensures
            r@ == TreeView::fresh(
                loaded(data@),
                dimension as nat,
                min_records as nat,
                max_records as nat,
            ),
            r.payloads() == loaded_objects(data@),
            r@.wf(),
            r@.fanout_ok(),
            forall|d: int| !r@.attached(d),
    {
        let mut space = ObjSpace::new(dimension, min_records, max_records);
        let ghost all = data@;
        proof {
            assert(data.len() <= usize::MAX);
        }
        space.extend(data);
        proof {
            assert(space@.data =~= loaded(all));
            assert(space.payloads() =~= loaded_objects(all));
            lemma_live_count_all(loaded(all));
            lemma_fresh_wf(loaded(all), dimension as nat, min_records as nat, max_records as nat);
            assert(space@ =~= TreeView::fresh(
                loaded(all),
                dimension as nat,
                min_records as nat,
                max_records as nat,
            ));
        }
        space
    }

    /// Adds `data` to the space, each pair as a live data node in the order
    /// given, after those that are there. The tree is left as it is: the new
    /// data nodes are in no leaf.
    pub fn extend(&mut self, data: Vec<(ObjectT, MBR)>)
        requires
            old(self)@.live_num + data@.len() <= usize::MAX,
        ensures
            final(self)@ == (TreeView {
                data: old(self)@.data + loaded(data@),
                live_num: old(self)@.live_num + data@.len(),
                ..old(self)@
            }),
            final(self).payloads() == old(self).payloads() + loaded_objects(data@),
    {
        let ghost all = data@;
        let ghost start = self@;
        let ghost start_payloads = self.payloads();
        let n = data.len();
        let mut data = data;
        let mut stack: Vec<(ObjectT, MBR)> = Vec::new();
        while data.len() > 0
            invariant
                data@.len() + stack@.len() == n,
                n == all.len(),
                forall|k: int| 0 <= k < data@.len() ==> data@[k] == all[k],
                forall|k: int| 0 <= k < stack@.len() ==> stack@[k] == all[n - 1 - k],
            decreases data@.len(),
        {
            let pair = data.pop().unwrap();
            stack.push(pair);
        }
        let ghost mut done: int = 0;
        proof {
            assert(all.take(0) =~= Seq::<(ObjectT, MBR)>::empty());
            assert(self@.data =~= start.data + loaded(all.take(0)));
            assert(self.payloads() =~= start_payloads + loaded_objects(all.take(0)));
        }
        while stack.len() > 0
            invariant
                0 <= done <= n,
                stack@.len() + done == n,
                n == all.len(),
                start == old(self)@,
                start_payloads == old(self).payloads(),
                start.live_num + n <= usize::MAX,
                forall|k: int| 0 <= k < stack@.len() ==> stack@[k] == all[n - 1 - k],
                self@ == (TreeView {
                    data: start.data + loaded(all.take(done)),
                    live_num: (start.live_num + done) as nat,
                    ..start
                }),
                self.payloads() == start_payloads + loaded_objects(all.take(done)),
            decreases stack@.len(),
        {
            let (object, mbr) = stack.pop().unwrap();
            self.make_data_node(object, mbr);
            proof {
                assert(all.take(done + 1) =~= all.take(done).push(all[done]));
                assert(loaded(all.take(done + 1)) =~= loaded(all.take(done)).push(
                    DataView { parent: RecordId::Root, mbr: all[done].1@, removed: false },
                ));
                assert(loaded_objects(all.take(done + 1)) =~= loaded_objects(
                    all.take(done),
                ).push(all[done].0));
                assert(self@.data =~= start.data + loaded(all.take(done + 1)));
                assert(self.payloads() =~= start_payloads + loaded_objects(all.take(done + 1)));
                done = done + 1;
            }
        }
        proof {
            assert(all.take(n as int) =~= all);
        }
    }

    /// A compacted copy: the live data nodes in their order, numbered anew
    /// from 0, none of them in the tree, and a tree that is not built yet.
    pub fn clone_shrinked(&self) -> (r: Self) where ObjectT: Clone
        requires
            self@.base_ok(),
        ensures
            r@ == TreeView::fresh(r@.data, self@.dimension, self@.min_records, self@.max_records),
            r@.data.len() == live_ids(self@.data).len(),
            forall|k: int|
                0 <= k < r@.data.len() ==> (#[trigger] r@.data[k]) == (DataView {
                    parent: RecordId::Root,
                    mbr: self@.data[live_ids(self@.data)[k].index()].mbr,
                    removed: false,
                }),
            forall|k: int|
                0 <= k < r@.data.len() ==> cloned(
                    self.payloads()[live_ids(self@.data)[k].index()],
                    #[trigger] r.payloads()[k],
                ),
            r@.wf(),
            r@.fanout_ok(),
            forall|d: int| !r@.attached(d),
    {
        let ghost src = self@.data;
        let mut space = ObjSpace::new(self.dimension, self.min_records, self.max_records);
        let mut d: usize = 0;
        proof {
            assert(src.take(0) =~= Seq::<DataView>::empty());
        }
        while d < self.data_nodes.len()
            invariant
                d <= self.data_nodes@.len(),
                src == self@.data,
                src.len() == self.data_nodes@.len(),
                space@.nodes == TreeView::fresh(
                    Seq::empty(),
                    self@.dimension,
                    self@.min_records,
                    self@.max_records,
                ).nodes,
                space.root_id == RecordId::Leaf(0),
                space.dimension == self.dimension,
                space.min_records == self.min_records,
                space.max_records == self.max_records,
                space@.live_num == space@.data.len(),
                space@.data.len() == live_ids(src.take(d as int)).len(),
                space@.data.len() <= d,
                forall|k: int|
                    0 <= k < space@.data.len() ==> (#[trigger] space@.data[k]) == (DataView {
                        parent: RecordId::Root,
                        mbr: src[live_ids(src.take(d as int))[k].index()].mbr,
                        removed: false,
                    }),
                forall|k: int|
                    0 <= k < space@.data.len() ==> cloned(
                        self.payloads()[live_ids(src.take(d as int))[k].index()],
                        #[trigger] space.payloads()[k],
                    ),
            decreases self.data_nodes@.len() - d,
        {
            let ghost l0 = live_ids(src.take(d as int));
            proof {
                assert(src.take(d + 1).drop_last() =~= src.take(d as int));
                assert(src.take(d + 1).last() == src[d as int]);
                lemma_live_ids(src.take(d as int));
            }
            if !self.data_nodes[d].removed {
                let ghost before = space@.data;
                let ghost before_payloads = space.payloads();
                let object = self.data_nodes[d].node.payload.clone();
                let mbr = self.data_nodes[d].node.mbr.clone();
                space.make_data_node(object, mbr);
                proof {
                    let l1 = live_ids(src.take(d + 1));
                    assert(l1 == l0.push(RecordId::Data(d)));
                    assert forall|k: int| 0 <= k < space@.data.len() implies (
                    #[trigger] space@.data[k]) == (DataView {
                        parent: RecordId::Root,
                        mbr: src[l1[k].index()].mbr,
                        removed: false,
                    }) by {
                        if k < before.len() {
                            assert(space@.data[k] == before[k]);
                            assert(l1[k] == l0[k]);
                        }
                    }
                    assert forall|k: int| 0 <= k < space@.data.len() implies cloned(
                        self.payloads()[l1[k].index()],
                        #[trigger] space.payloads()[k],
                    ) by {
                        if k < before.len() {
                            assert(space.payloads()[k] == before_payloads[k]);
                            assert(l1[k] == l0[k]);
                        }
                    }
                }
            }
            d += 1;
        }
        proof {
            assert(src.take(self.data_nodes@.len() as int) =~= src);
            lemma_live_count_all(space@.data);
            assert forall|k: int| 0 <= k < space@.data.len() implies (
            #[trigger] space@.data[k]).mbr.len() == self@.dimension && box_ordered(
                space@.data[k].mbr,
            ) by {
                lemma_live_ids(src);
                assert(self@.data_ok(live_ids(src)[k].index()));
            }
            lemma_fresh_wf(
                space@.data,
                self@.dimension,
                self@.min_records,
                self@.max_records,
            );
            assert(space@ =~= TreeView::fresh(
                space@.data,
                self@.dimension,
                self@.min_records,
                self@.max_records,
            ));
        }
        space
    }

    /// The live data nodes in the order of the arena, as record identifiers.
    pub fn iter_data_ids(&self) -> (r: Vec<RecordId>)
        ensures
            r@ == live_ids(self@.data),
    {
        let ghost src = self@.data;
        let mut ids: Vec<RecordId> = Vec::new();
        let mut d: usize = 0;
        proof {
            assert(src.take(0) =~= Seq::<DataView>::empty());
        }
        while d < self.data_nodes.len()
            invariant
                d <= self.data_nodes@.len(),
                src == self@.data,
                src.len() == self.data_nodes@.len(),
                ids@ == live_ids(src.take(d as int)),
            decreases self.data_nodes@.len() - d,
        {
            proof {
                assert(src.take(d + 1).drop_last() =~= src.take(d as int));
                assert(src.take(d + 1).last() == src[d as int]);
            }
            if !self.data_nodes[d].removed {
                ids.push(RecordId::Data(d));
            }
            d += 1;
        }
        proof {
            assert(src.take(self.data_nodes@.len() as int) =~= src);
        }
        ids
    }

    /// The live data nodes in the order of the arena: the index, the object
    /// and the rectangle of each.
    pub fn iter(&self) -> (r: Vec<(NodeId, &ObjectT, &MBR)>)
        ensures
            r@.len() == live_ids(self@.data).len(),
            forall|k: int|
                0 <= k < r@.len() ==> (#[trigger] r@[k]).0 == live_ids(self@.data)[k].index()
                    && *r@[k].1 == self.payloads()[r@[k].0 as int] && r@[k].2@
                    == self@.data[r@[k].0 as int].mbr,
    {
        let ghost src = self@.data;
        let mut out: Vec<(NodeId, &ObjectT, &MBR)> = Vec::new();
        let mut d: usize = 0;
        proof {
            assert(src.take(0) =~= Seq::<DataView>::empty());
        }
        while d < self.data_nodes.len()
            invariant
                d <= self.data_nodes@.len(),
                src == self@.data,
                src.len() == self.data_nodes@.len(),
                out@.len() == live_ids(src.take(d as int)).len(),
                forall|k: int|
                    0 <= k < out@.len() ==> (#[trigger] out@[k]).0 == live_ids(
                        src.take(d as int),
                    )[k].index() && out@[k].0 < src.len() && *out@[k].1
                        == self.payloads()[out@[k].0 as int] && out@[k].2@
                        == src[out@[k].0 as int].mbr,
            decreases self.data_nodes@.len() - d,
        {
            let ghost l0 = live_ids(src.take(d as int));
            proof {
                assert(src.take(d + 1).drop_last() =~= src.take(d as int));
                assert(src.take(d + 1).last() == src[d as int]);
            }
            if !self.data_nodes[d].removed {
                let ghost before = out@;
                out.push((d, &self.data_nodes[d].node.payload, &self.data_nodes[d].node.mbr));
                proof {
                    let l1 = live_ids(src.take(d + 1));
                    assert(l1 == l0.push(RecordId::Data(d)));
                    assert forall|k: int| 0 <= k < out@.len() implies (#[trigger] out@[k]).0
                        == l1[k].index() && out@[k].0 < src.len() && *out@[k].1
                        == self.payloads()[out@[k].0 as int] && out@[k].2@
                        == src[out@[k].0 as int].mbr by {
                        if k < before.len() {
                            assert(out@[k] == before[k]);
                            assert(l1[k] == l0[k]);
                        }
                    }
                }
            }
            d += 1;
        }
        proof {
            assert(src.take(self.data_nodes@.len() as int) =~= src);
        }
        out
    }

    /// Parks the data nodes that `data_ids` names in the freelist. The tree
    /// is left as it is. An index that names no data node, or one that is
    /// parked already, is passed over.
    pub fn mark_as_removed(&mut self, data_ids: Vec<NodeId>)
        requires
            old(self)@.live_num == live_count(old(self)@.data),
        ensures
            final(self)@.nodes == old(self)@.nodes,
            final(self)@.root == old(self)@.root,
            final(self)@.dimension == old(self)@.dimension,
            final(self)@.min_records == old(self)@.min_records,
            final(self)@.max_records == old(self)@.max_records,
            final(self)@.data.len() == old(self)@.data.len(),
            forall|d: int|
                0 <= d < old(self)@.data.len() ==> (#[trigger] final(self)@.data[d]) == (DataView {
                    removed: old(self)@.data[d].removed || data_ids@.contains(d as usize),
                    ..old(self)@.data[d]
                }),
            final(self)@.live_num == live_count(final(self)@.data),
            final(self).payloads() == old(self).payloads(),
    {
        let mut k: usize = 0;
        while k < data_ids.len()
            invariant
                k <= data_ids@.len(),
                self@.nodes == old(self)@.nodes,
                self@.root == old(self)@.root,
                self@.dimension == old(self)@.dimension,
                self@.min_records == old(self)@.min_records,
                self@.max_records == old(self)@.max_records,
                self@.data.len() == old(self)@.data.len(),
                forall|d: int|
                    0 <= d < old(self)@.data.len() ==> (#[trigger] self@.data[d]) == (DataView {
                        removed: old(self)@.data[d].removed || data_ids@.take(k as int).contains(
                            d as usize,
                        ),
                        ..old(self)@.data[d]
                    }),
                self@.live_num == live_count(self@.data),
                self.payloads() == old(self).payloads(),
            decreases data_ids@.len() - k,
        {
            let id = data_ids[k];
            let ghost before = self@;
            let ghost s0 = data_ids@.take(k as int);
            let ghost s1 = data_ids@.take(k + 1);
            proof {
                assert(s1 =~= s0.push(id));
                assert forall|y: usize| s1.contains(y) <==> s0.contains(y) || y == id by {
                    if s0.contains(y) {
                        let w = choose|w: int| 0 <= w < s0.len() && s0[w] == y;
                        assert(s1[w] == y);
                    }
                    if y == id {
                        assert(s1[k as int] == y);
                    }
                    if s1.contains(y) {
                        let w = choose|w: int| 0 <= w < s1.len() && s1[w] == y;
                        if w < k {
                            assert(s0[w] == y);
                        }
                    }
                }
            }
            if id < self.data_nodes.len() && !self.data_nodes[id].removed {
                proof {
                    lemma_live_count_remove(before.data, id as int);
                }
                self.data_nodes[id].removed = true;
                self.live_num = self.live_num - 1;
                proof {
                    assert(self@.data =~= before.data.update(
                        id as int,
                        DataView { removed: true, ..before.data[id as int] },
                    ));
                    assert(self@.nodes =~= before.nodes);
                    assert(self.payloads() =~= old(self).payloads());
                }
            }
            proof {
                assert forall|d: int| 0 <= d < old(self)@.data.len() implies (
                #[trigger] self@.data[d]) == (DataView {
                    removed: old(self)@.data[d].removed || s1.contains(d as usize),
                    ..old(self)@.data[d]
                }) by {
                    assert(before.data[d] == (DataView {
                        removed: old(self)@.data[d].removed || s0.contains(d as usize),
                        ..old(self)@.data[d]
                    }));
                }
            }
            k += 1;
        }
        proof {
            assert(data_ids@.take(data_ids@.len() as int) =~= data_ids@);
        }
    }

    /// Takes every data node out of the freelist. The tree is left as it
    /// is.
    pub fn restore_removed(&mut self)
        ensures
            final(self)@.nodes == old(self)@.nodes,
            final(self)@.root == old(self)@.root,
            final(self)@.dimension == old(self)@.dimension,
            final(self)@.min_records == old(self)@.min_records,
            final(self)@.max_records == old(self)@.max_records,
            final(self)@.data.len() == old(self)@.data.len(),
            forall|d: int|
                0 <= d < old(self)@.data.len() ==> (#[trigger] final(self)@.data[d]) == (DataView {
                    removed: false,
                    ..old(self)@.data[d]
                }),
            final(self)@.live_num == live_count(final(self)@.data),
            final(self).payloads() == old(self).payloads(),
    {
        let mut d: usize = 0;
        while d < self.data_nodes.len()
            invariant
                d <= self.data_nodes@.len(),
                self@.nodes == old(self)@.nodes,
                self@.root == old(self)@.root,
                self@.dimension == old(self)@.dimension,
                self@.min_records == old(self)@.min_records,
                self@.max_records == old(self)@.max_records,
                self@.data.len() == old(self)@.data.len(),
                forall|e: int|
                    0 <= e < old(self)@.data.len() ==> (#[trigger] self@.data[e]) == (DataView {
                        removed: if e < d {
                            false
                        } else {
                            old(self)@.data[e].removed
                        },
                        ..old(self)@.data[e]
                    }),
                self.payloads() == old(self).payloads(),
            decreases self.data_nodes@.len() - d,
        {
            let ghost before = self@;
            self.data_nodes[d].removed = false;
            proof {
                assert(self@.nodes =~= before.nodes);
                assert(self@.data =~= before.data.update(
                    d as int,
                    DataView { removed: false, ..before.data[d as int] },
                ));
                assert(self.payloads() =~= old(self).payloads());
            }
            d += 1;
        }
        self.live_num = self.data_nodes.len();
        proof {
            assert(self@.nodes =~= old(self)@.nodes);
            lemma_live_count_all(self@.data);
        }
    }
}


/// What a node of the internal arena offers besides its fields.
pub trait InternalNodeTrait: Sized {
    /// The node as the model of the tree sees it.
    spec fn model(&self) -> NodeView;

    /// An empty node with an undefined rectangle and room for `capacity`
    /// children.
    fn new(capacity: usize) -> (r: Self)
        ensures
            r.model() == (NodeView {
                parent: RecordId::Root,
                mbr: Seq::empty(),
                children: Seq::empty(),
            }),
    ;

    /// An empty node with the rectangle given and room for `capacity`
    /// children.
    fn with_mbr(capacity: usize, mbr: MBR) -> (r: Self)
        ensures
            r.model() == (NodeView { parent: RecordId::Root, mbr: mbr@, children: Seq::empty() }),
    ;

    /// Takes the children out of the node and leaves it empty, with an
    /// undefined rectangle.
    fn abort_children(&mut self) -> (children: Vec<RecordId>)
        ensures
            children@ == old(self).model().children,
            final(self).model() == (NodeView {
                parent: old(self).model().parent,
                mbr: Seq::empty(),
                children: Seq::empty(),
            }),
    ;
}

impl InternalNodeTrait for InternalNode {
    open spec fn model(&self) -> NodeView {
        node_view(*self)
    }

    fn new(capacity: usize) -> (r: Self) {
        Self::with_mbr(capacity, MBR::undefined())
    }

    fn with_mbr(capacity: usize, mbr: MBR) -> (r: Self) {
        Node { parent_id: RecordId::Root, mbr, payload: Vec::with_capacity(capacity) }
    }

    fn abort_children(&mut self) -> (children: Vec<RecordId>) {
        self.mbr = MBR::undefined();
        let mut children: Vec<RecordId> = Vec::new();
        core::mem::swap(&mut children, &mut self.payload);
        children
    }
}

} // verus!
