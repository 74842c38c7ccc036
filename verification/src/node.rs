//! Record identifiers and the node record shared by both arenas.

use crate::mbr::MBR;
use crate::text::{decimal, push_decimal};
use vstd::prelude::*;
use vstd::string::StringExecFns;

verus! {

/// Index of a record inside its arena.
pub type NodeId = usize;

/// Tagged identifier of a record. The tag tells which arena holds the record
/// and at which level of the tree it stands; `Root` is the parent of the root.
#[derive(Debug, Clone, Copy, PartialEq, Eq, PartialOrd, Ord, Hash, Structural)]
pub enum RecordId {
    Root,
    Internal(NodeId),
    Leaf(NodeId),
    Data(NodeId),
}

/// The two kinds of node that hold children.
#[derive(Debug, Clone, Copy, PartialEq, Eq, PartialOrd, Ord, Hash, Structural)]
pub enum RecordIdKind {
    Internal,
    Leaf,
}

impl RecordId {
    /// The identifier names a node of the internal arena.
    pub open spec fn is_node(self) -> bool {
        self is Internal || self is Leaf
    }

    /// The arena index behind the tag; arbitrary for `Root`.
    pub open spec fn index(self) -> int {
        match self {
            RecordId::Root => 0,
            RecordId::Internal(id) => id as int,
            RecordId::Leaf(id) => id as int,
            RecordId::Data(id) => id as int,
        }
    }

    /// The identifier of node `id` with the tag of `kind`.
    pub open spec fn spec_from_node_id(id: NodeId, kind: RecordIdKind) -> RecordId {
        match kind {
            RecordIdKind::Internal => RecordId::Internal(id),
            RecordIdKind::Leaf => RecordId::Leaf(id),
        }
    }

    /// The identifier of node `id` with the tag of `kind`.
    pub fn from_node_id(id: NodeId, kind: RecordIdKind) -> (r: Self)
        ensures
            r == Self::spec_from_node_id(id, kind),
    {
        match kind {
            RecordIdKind::Internal => RecordId::Internal(id),
            RecordIdKind::Leaf => RecordId::Leaf(id),
        }
    }

    /// The index behind the tag.
    pub fn as_node_id(&self) -> (id: NodeId)
        requires
            !(*self is Root),
        ensures
            id == self.index(),
    {
        match self {
            RecordId::Root => 0,
            RecordId::Internal(id) => *id,
            RecordId::Leaf(id) => *id,
            RecordId::Data(id) => *id,
        }
    }

    /// The kind of the node that the identifier names.
    pub fn kind(&self) -> (k: RecordIdKind)
        requires
            self.is_node(),
        ensures
            *self == Self::spec_from_node_id(self.index() as usize, k),
    {
        match self {
            RecordId::Internal(_) => RecordIdKind::Internal,
            _ => RecordIdKind::Leaf,
        }
    }

    /// The text of the identifier: its tag, and its index in brackets.
    pub open spec fn spec_text(self) -> Seq<char> {
        match self {
            RecordId::Root => "Root"@,
            RecordId::Internal(id) => "Internal("@ + decimal(id as nat) + ")"@,
            RecordId::Leaf(id) => "Leaf("@ + decimal(id as nat) + ")"@,
            RecordId::Data(id) => "Data("@ + decimal(id as nat) + ")"@,
        }
    }

    /// The text of the identifier.
    pub fn to_string(&self) -> (s: String)
        ensures
            s@ == self.spec_text(),
    {
        match self {
            RecordId::Root => String::from_str("Root"),
            RecordId::Internal(id) => tagged("Internal(", *id),
            RecordId::Leaf(id) => tagged("Leaf(", *id),
            RecordId::Data(id) => tagged("Data(", *id),
        }
    }

    /// Gives the identifier the tag of `kind` and leaves its index.
    pub fn set_kind(&mut self, kind: RecordIdKind)
        requires
            !(*old(self) is Root),
        ensures
            *final(self) == Self::spec_from_node_id(old(self).index() as usize, kind),
    {
        let id = self.as_node_id();
        *self = RecordId::from_node_id(id, kind);
    }
}

fn tagged(tag: &str, id: NodeId) -> (s: String)
    ensures
        s@ == tag@ + decimal(id as nat) + ")"@,
{
    let mut s = String::from_str(tag);
    push_decimal(&mut s, id as u64);
    s.append(")");
    s
}

/// A record of the tree: its parent, its rectangle and what it carries. An
/// internal node carries its children, a data node carries the stored object.
#[derive(Debug)]
pub struct Node<PayloadT> {
    pub parent_id: RecordId,
    pub mbr: MBR,
    pub payload: PayloadT,
}

impl<PayloadT> Node<PayloadT> {
    /// The identifier of the parent.
    pub fn parent_id(&self) -> (r: RecordId)
        ensures
            r == self.parent_id,
    {
        self.parent_id
    }

    /// The rectangle of the record.
    pub fn mbr(&self) -> (r: &MBR)
        ensures
            *r == self.mbr,
    {
        &self.mbr
    }

    /// What the record carries.
    pub fn payload(&self) -> (r: &PayloadT)
        ensures
            *r == self.payload,
    {
        &self.payload
    }
}

/// A node of the internal arena: its payload is the list of its children.
pub type InternalNode = Node<Vec<RecordId>>;

/// A node of the data arena: its payload is the stored object.
pub type DataNode<ObjectT> = Node<ObjectT>;

} // verus!
