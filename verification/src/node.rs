//! The two kinds of node, and what a subtree holds.

use vstd::prelude::*;
use crate::key::{blank, stem_of, suffix_of, Commitment, Stem, Value};

verus! {

/// An interior node: 256 child slots, indexed by one stem byte.
#[derive(Debug)]
pub struct BranchNode {
    pub children: [Option<NodeRef>; 256],
    pub commitment: Commitment,
}

/// A leaf-level node: one stem and the values of its 256 suffixes.
#[derive(Debug, Clone)]
pub struct StemNode {
    pub stem: Stem,
    pub values: [Option<Value>; 256],
    pub commitment: Commitment,
}

/// What a child slot holds.
#[derive(Debug)]
pub enum NodeRef {
    Branch(Box<BranchNode>),
    Stem(Box<StemNode>),
}

impl StemNode {
    /// The value stored under `key`, if this node owns the key's stem.
    pub open spec fn find(self, key: Seq<u8>) -> Option<Value> {
        if self.stem@ == stem_of(key) {
            self.values@[suffix_of(key) as int]
        } else {
            None
        }
    }

    /// A node for `stem` with no value.
    pub fn new(stem: Stem) -> (node: Self)
        ensures
            node.stem == stem,
            forall|i: int| 0 <= i < 256 ==> node.values@[i] is None,
            node.commitment@ == blank(),
    {
        StemNode { stem, values: [None; 256], commitment: [0u8; 32] }
    }
}

impl NodeRef {
    /// The value stored under `key` below this node, which sits in a slot of
    /// a branch at depth `depth - 1`.
    pub open spec fn find(self, key: Seq<u8>, depth: nat) -> Option<Value>
        decreases 32 - depth, 1int,
    {
        match self {
            NodeRef::Branch(b) => b.find(key, depth),
            NodeRef::Stem(s) => s.find(key),
        }
    }

    /// What a walk along `key` reads below this node, the stem of a leaf
    /// taken on trust.
    pub open spec fn walk(self, key: Seq<u8>, depth: nat) -> Option<Value>
        decreases 32 - depth, 1int,
    {
        match self {
            NodeRef::Branch(b) => b.walk(key, depth),
            NodeRef::Stem(s) => s.values@[suffix_of(key) as int],
        }
    }

    /// This node is rightly placed below `path`: branches stop at depth 30,
    /// none of them is empty, and each leaf's stem starts with the path that
    /// leads to it.
    pub open spec fn well_placed(self, path: Seq<u8>) -> bool
        decreases 32 - path.len(), 1int,
    {
        match self {
            NodeRef::Branch(b) => !b.is_empty() && b.well_placed(path),
            NodeRef::Stem(s) => s.stem@.take(path.len() as int) == path,
        }
    }

    /// Every leaf below this node sits at the deepest level.
    pub open spec fn expanded(self, depth: nat) -> bool
        decreases 32 - depth, 1int,
    {
        match self {
            NodeRef::Branch(b) => b.expanded(depth),
            NodeRef::Stem(_) => depth == 31,
        }
    }
}

impl BranchNode {
    /// The value stored under `key` below this branch, which sits at `depth`.
    pub open spec fn find(self, key: Seq<u8>, depth: nat) -> Option<Value>
        decreases 32 - depth, 0int,
    {
        if depth >= 31 {
            None
        } else {
            match self.children@[key[depth as int] as int] {
                None => None,
                Some(child) => child.find(key, depth + 1),
            }
        }
    }

    /// What a walk along `key` reads below this branch.
    pub open spec fn walk(self, key: Seq<u8>, depth: nat) -> Option<Value>
        decreases 32 - depth, 0int,
    {
        if depth >= 31 {
            None
        } else {
            match self.children@[key[depth as int] as int] {
                None => None,
                Some(child) => child.walk(key, depth + 1),
            }
        }
    }

    /// This branch is rightly placed at the end of `path`.
    pub open spec fn well_placed(self, path: Seq<u8>) -> bool
        decreases 32 - path.len(), 0int,
    {
        &&& path.len() <= 30
        &&& forall|i: int|
            0 <= i < 256 ==> match #[trigger] self.children@[i] {
                None => true,
                Some(child) => child.well_placed(path.push(i as u8)),
            }
    }

    /// Every leaf below this branch sits at the deepest level.
    pub open spec fn expanded(self, depth: nat) -> bool
        decreases 32 - depth, 0int,
    {
        &&& depth <= 30
        &&& forall|i: int|
            0 <= i < 256 ==> match #[trigger] self.children@[i] {
                None => true,
                Some(child) => child.expanded(depth + 1),
            }
    }

    /// Whether no slot holds a child.
    pub open spec fn is_empty(self) -> bool {
        forall|i: int| 0 <= i < 256 ==> self.children@[i] is None
    }

    /// A branch with no child.
    pub fn new() -> (node: Self)
        ensures
            node.is_empty(),
            node.commitment@ == blank(),
    {
        // An array of owned nodes cannot be filled from one value, so the
        // 256 empty slots are written out.
        BranchNode {
            children: [
                None, None, None, None, None, None, None, None,
                None, None, None, None, None, None, None, None,
                None, None, None, None, None, None, None, None,
                None, None, None, None, None, None, None, None,
                None, None, None, None, None, None, None, None,
                None, None, None, None, None, None, None, None,
                None, None, None, None, None, None, None, None,
                None, None, None, None, None, None, None, None,
                None, None, None, None, None, None, None, None,
                None, None, None, None, None, None, None, None,
                None, None, None, None, None, None, None, None,
                None, None, None, None, None, None, None, None,
                None, None, None, None, None, None, None, None,
                None, None, None, None, None, None, None, None,
                None, None, None, None, None, None, None, None,
                None, None, None, None, None, None, None, None,
                None, None, None, None, None, None, None, None,
                None, None, None, None, None, None, None, None,
                None, None, None, None, None, None, None, None,
                None, None, None, None, None, None, None, None,
                None, None, None, None, None, None, None, None,
                None, None, None, None, None, None, None, None,
                None, None, None, None, None, None, None, None,
                None, None, None, None, None, None, None, None,
                None, None, None, None, None, None, None, None,
                None, None, None, None, None, None, None, None,
                None, None, None, None, None, None, None, None,
                None, None, None, None, None, None, None, None,
                None, None, None, None, None, None, None, None,
                None, None, None, None, None, None, None, None,
                None, None, None, None, None, None, None, None,
                None, None, None, None, None, None, None, None,
            ],
            commitment: [0u8; 32],
        }
    }
}

/// The value stored under `key` below what a slot holds, the slot being one
/// of a branch at depth `depth - 1`.
pub open spec fn slot_find(slot: Option<NodeRef>, key: Seq<u8>, depth: nat) -> Option<Value> {
    match slot {
        None => None,
        Some(child) => child.find(key, depth),
    }
}

/// Whether what a slot holds is rightly placed below `path`.
pub open spec fn slot_well_placed(slot: Option<NodeRef>, path: Seq<u8>) -> bool {
    match slot {
        None => true,
        Some(child) => child.well_placed(path),
    }
}

/// Whether every leaf below what a slot holds sits at the deepest level.
pub open spec fn slot_expanded(slot: Option<NodeRef>, depth: nat) -> bool {
    match slot {
        None => true,
        Some(child) => child.expanded(depth),
    }
}

/// `after` is `before` with the slot `index` replaced and nothing else
/// touched.
pub open spec fn replaces_slot(after: BranchNode, before: BranchNode, index: int) -> bool {
    &&& after.commitment == before.commitment
    &&& forall|i: int| 0 <= i < 256 && i != index ==> after.children@[i] == before.children@[i]
}

/// What is stored under `k` once `value` has been stored under `key`, where
/// `before` was stored under `k` until then.
pub open spec fn stored_after(
    before: Option<Value>,
    k: Seq<u8>,
    key: Seq<u8>,
    value: Value,
) -> Option<Value> {
    if k == key {
        Some(value)
    } else {
        before
    }
}

/// The bytes of a value that may be absent.
pub open spec fn bytes_of(value: Option<Value>) -> Option<Seq<u8>> {
    match value {
        Some(v) => Some(v@),
        None => None,
    }
}

} // verus!
