//! The walk of the tree: the steps of a depth-first traversal, in order.

use crate::model::{id_of, TreeView};
use crate::node::RecordId;
use crate::obj_space::ObjSpace;
use vstd::prelude::*;

verus! {

/// A step of the walk: a node is entered, a node is left, or a data node is
/// visited.
#[derive(Debug, Clone, Copy, PartialEq, Eq, Structural)]
pub enum Step {
    Enter(RecordId),
    Leave(RecordId),
    Data(RecordId),
}

/// How far above the data nodes the record that `id` names stands: a data
/// node 0, a leaf 1.
pub open spec fn height(lv: Seq<nat>, id: RecordId) -> nat {
    if id.is_node() {
        lv[id.index()] + 1
    } else {
        0
    }
}

/// The walk of the record that `id` names: a data node is visited; a node
/// is entered, its children are walked in their order, and it is left.
pub open spec fn spec_walk(t: TreeView, lv: Seq<nat>, id: RecordId) -> Seq<Step>
    decreases height(lv, id), 1nat, 0nat,
{
    if id.is_node() {
        seq![Step::Enter(id)] + walk_first(
            t,
            lv,
            id,
            t.nodes[id.index()].children.len(),
        ) + seq![Step::Leave(id)]
    } else {
        seq![Step::Data(id)]
    }
}

/// The walks of the first `k` children of the node that `id` names, one
/// after the other. A child that does not stand below the node, which no
/// well-formed tree has, is passed over.
pub open spec fn walk_first(t: TreeView, lv: Seq<nat>, id: RecordId, k: nat) -> Seq<Step>
    decreases height(lv, id), 0nat, k,
{
    if k == 0 || !id.is_node() {
        Seq::empty()
    } else {
        let child = t.nodes[id.index()].children[k - 1];
        walk_first(t, lv, id, (k - 1) as nat) + if height(lv, child) < height(lv, id) {
            spec_walk(t, lv, child)
        } else {
            Seq::empty()
        }
    }
}

/// The step names a record of the tree: a node where a node is entered or
/// left, a data node where one is visited.
pub open spec fn step_ok(t: TreeView, step: Step) -> bool {
    match step {
        Step::Enter(id) => id.is_node() && id.index() < t.nodes.len(),
        Step::Leave(id) => id.is_node() && id.index() < t.nodes.len(),
        Step::Data(id) => id is Data && id.index() < t.data.len(),
    }
}

/// Appends to `out` the walk of the record that `id` names.
pub fn walk_helper<ObjectT>(
    obj_space: &ObjSpace<ObjectT>,
    Ghost(lv): Ghost<Seq<nat>>,
    id: RecordId,
    out: &mut Vec<Step>,
)
    requires
        obj_space@.wf_lv(lv),
        obj_space@.resolves(id),
        id.is_node() ==> id == id_of(lv, id.index()),
        forall|k: int| 0 <= k < old(out)@.len() ==> step_ok(obj_space@, #[trigger] old(out)@[k]),
    ensures
        final(out)@ == old(out)@ + spec_walk(obj_space@, lv, id),
        forall|k: int| 0 <= k < final(out)@.len() ==> step_ok(obj_space@, #[trigger] final(out)@[k]),
    decreases height(lv, id),
{
    let ghost t = obj_space@;
    match id {
        RecordId::Data(_) => {
            out.push(Step::Data(id));
            proof {
                assert(out@ =~= old(out)@ + spec_walk(t, lv, id));
            }
        },
        _ => {
            let ghost i = id.index();
            let node = obj_space.get_node(id);
            out.push(Step::Enter(id));
            let n = node.payload.len();
            let mut k: usize = 0;
            proof {
                assert(out@ =~= old(out)@ + (seq![Step::Enter(id)] + walk_first(t, lv, id, 0)));
            }
            while k < n
                invariant
                    k <= n,
                    t == obj_space@,
                    t.wf_lv(lv),
                    id.is_node(),
                    i == id.index(),
                    0 <= i < t.nodes.len(),
                    node.payload@ == t.nodes[i].children,
                    n == t.nodes[i].children.len(),
                    out@ == old(out)@ + (seq![Step::Enter(id)] + walk_first(t, lv, id, k as nat)),
                    forall|k: int| 0 <= k < out@.len() ==> step_ok(t, #[trigger] out@[k]),
                decreases n - k,
            {
                let child_id = node.payload[k];
                proof {
                    assert(t.node_ok(lv, i));
                    assert(t.child_ok(lv, i, k as int));
                }
                let ghost before = out@;
                walk_helper(obj_space, Ghost(lv), child_id, out);
                proof {
                    assert(walk_first(t, lv, id, (k + 1) as nat) == walk_first(
                        t,
                        lv,
                        id,
                        k as nat,
                    ) + spec_walk(t, lv, child_id));
                    assert(out@ =~= old(out)@ + (seq![Step::Enter(id)] + walk_first(
                        t,
                        lv,
                        id,
                        (k + 1) as nat,
                    )));
                }
                k += 1;
            }
            out.push(Step::Leave(id));
            proof {
                assert(out@ =~= old(out)@ + spec_walk(t, lv, id));
            }
        },
    }
}

} // verus!
