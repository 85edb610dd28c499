//! The shape that an insertion gives a subtree, node by node.

use vstd::prelude::*;
use crate::key::{blank, Value};
use crate::node::{replaces_slot, BranchNode, NodeRef, StemNode};

verus! {

impl StemNode {
    /// This leaf owns `stem` and holds `value` under `suffix` and nothing
    /// else.
    pub open spec fn holds_only(self, stem: Seq<u8>, suffix: u8, value: Value) -> bool {
        &&& self.stem@ == stem
        &&& self.commitment@ == blank()
        &&& forall|i: int|
            0 <= i < 256 ==> #[trigger] self.values@[i] == if i == suffix {
                Some(value)
            } else {
                None::<Value>
            }
    }

    /// This leaf is `before` with `value` stored under `suffix`.
    pub open spec fn is_update_of(self, before: StemNode, suffix: u8, value: Value) -> bool {
        &&& self.stem == before.stem
        &&& self.commitment == before.commitment
        &&& self.values@ == before.values@.update(suffix as int, Some(value))
    }
}

impl BranchNode {
    /// This branch is new and has one child, in the slot `index`.
    pub open spec fn has_only_child(self, index: int) -> bool {
        &&& self.commitment@ == blank()
        &&& self.children@[index] is Some
        &&& forall|i: int| 0 <= i < 256 && i != index ==> self.children@[i] is None
    }
}

/// `node`, at depth `depth` if it is a branch, is a chain of new single-child
/// branches that follows `stem` down to a leaf at the deepest level.
pub open spec fn is_chain(node: NodeRef, stem: Seq<u8>, depth: nat) -> bool
    decreases 32 - depth,
{
    match node {
        NodeRef::Stem(_) => depth == 31,
        NodeRef::Branch(branch) => {
            &&& depth <= 30
            &&& branch.has_only_child(stem[depth as int] as int)
            &&& is_chain(branch.children@[stem[depth as int] as int]->Some_0, stem, depth + 1)
        },
    }
}

/// The leaf at the end of a chain.
pub open spec fn chain_leaf(node: NodeRef, stem: Seq<u8>, depth: nat) -> StemNode
    decreases 32 - depth,
{
    match node {
        NodeRef::Stem(leaf) => *leaf,
        NodeRef::Branch(branch) => if depth <= 30 && branch.children@[stem[depth as int] as int]
            is Some {
            chain_leaf(branch.children@[stem[depth as int] as int]->Some_0, stem, depth + 1)
        } else {
            arbitrary()
        },
    }
}

/// `top`, a branch at depth `depth`, is what a split puts in the place of
/// `leaf` to make room for `stem`: as long as the two stems agree, a new
/// branch with one child; where they part, a new branch with two children,
/// one a chain down to `leaf` as it was, the other a chain down to a new leaf
/// that holds `value` under `suffix` alone.
pub open spec fn is_split(
    top: BranchNode,
    depth: nat,
    leaf: StemNode,
    stem: Seq<u8>,
    suffix: u8,
    value: Value,
) -> bool
    decreases 31 - depth,
{
    let old_turn = leaf.stem@[depth as int] as int;
    let new_turn = stem[depth as int] as int;
    &&& depth <= 30
    &&& top.commitment@ == blank()
    &&& if old_turn == new_turn {
        &&& depth < 30
        &&& top.has_only_child(new_turn)
        &&& top.children@[new_turn] matches Some(NodeRef::Branch(below)) && is_split(
            *below,
            depth + 1,
            leaf,
            stem,
            suffix,
            value,
        )
    } else {
        &&& forall|i: int|
            0 <= i < 256 && i != old_turn && i != new_turn ==> top.children@[i] is None
        &&& top.children@[old_turn] matches Some(old_path) && is_chain(
            old_path,
            leaf.stem@,
            depth + 1,
        ) && chain_leaf(old_path, leaf.stem@, depth + 1) == leaf
        &&& top.children@[new_turn] matches Some(new_path) && is_chain(new_path, stem, depth + 1)
            && chain_leaf(new_path, stem, depth + 1).holds_only(stem, suffix, value)
    }
}

/// `after` is `before`, a branch at depth `level`, with `value` stored under
/// `stem` and `suffix`. One slot changes, the one of the stem's byte at this
/// level: an empty slot gets a chain down to a new leaf, a branch gets the
/// value stored below it, a leaf with the same stem takes the value, and a
/// leaf with another stem is split.
pub open spec fn is_insert(
    after: BranchNode,
    before: BranchNode,
    stem: Seq<u8>,
    level: nat,
    suffix: u8,
    value: Value,
) -> bool
    decreases 31 - level,
{
    let turn = stem[level as int] as int;
    &&& level <= 30
    &&& replaces_slot(after, before, turn)
    &&& match before.children@[turn] {
        None => after.children@[turn] matches Some(path) && is_chain(path, stem, level + 1)
            && chain_leaf(path, stem, level + 1).holds_only(stem, suffix, value),
        Some(NodeRef::Branch(below_before)) => {
            &&& level < 30
            &&& after.children@[turn] matches Some(NodeRef::Branch(below)) && is_insert(
                *below,
                *below_before,
                stem,
                level + 1,
                suffix,
                value,
            )
        },
        Some(NodeRef::Stem(leaf_before)) => if leaf_before.stem@ == stem {
            after.children@[turn] matches Some(NodeRef::Stem(leaf)) && leaf.is_update_of(
                *leaf_before,
                suffix,
                value,
            )
        } else {
            after.children@[turn] matches Some(NodeRef::Branch(top)) && is_split(
                *top,
                level + 1,
                *leaf_before,
                stem,
                suffix,
                value,
            )
        },
    }
}

} // verus!
