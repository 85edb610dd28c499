//! The trie: lookup, insertion and the split of a leaf.

use vstd::prelude::*;
use crate::key::{
    blank, get_stem, get_suffix, key_of, lemma_join_split, stem_of, stems_equal, suffix_of,
    Commitment, Key, Stem, Suffix, Value,
};
use crate::shape::{chain_leaf, is_chain, is_insert, is_split};
use crate::node::{
    bytes_of, replaces_slot, slot_expanded, slot_find, slot_well_placed, stored_after, BranchNode,
    NodeRef, StemNode,
};

verus! {

/// A trie from 32-byte keys to 32-byte values.
pub struct VerkleTree {
    root: BranchNode,
}

/// Below a branch that is rightly placed and fully expanded, a walk along a
/// key reads exactly what is stored under that key: the leaf at which the
/// walk stops owns the key's stem, so the lookup need not compare the two.
pub proof fn lemma_walk_is_find(branch: BranchNode, key: Seq<u8>, depth: nat)
    requires
        key.len() == 32,
        branch.well_placed(key.take(depth as int)),
        branch.expanded(depth),
    ensures
        branch.walk(key, depth) == branch.find(key, depth),
    decreases 31 - depth,
{
    let turn = key[depth as int] as int;
    assert(key.take(depth as int).push(turn as u8) =~= key.take(depth as int + 1));
    match branch.children@[turn] {
        None => {},
        Some(NodeRef::Branch(below)) => {
            lemma_walk_is_find(*below, key, depth + 1);
        },
        Some(NodeRef::Stem(leaf)) => {
            assert(leaf.stem@.take(31) =~= leaf.stem@);
        },
    }
}

/// Replacing the slot that `key` leads through by a subtree that stores one
/// key more stores that one key more in the whole branch, and keeps the
/// branch rightly placed.
proof fn lemma_replace_slot(
    after: BranchNode,
    before: BranchNode,
    key: Seq<u8>,
    value: Value,
    depth: nat,
)
    requires
        key.len() == 32,
        depth <= 30,
        replaces_slot(after, before, key[depth as int] as int),
        before.well_placed(key.take(depth as int)),
        slot_well_placed(after.children@[key[depth as int] as int], key.take(depth as int + 1)),
        forall|k: Seq<u8>|
            k.len() == 32 ==> #[trigger] slot_find(
                after.children@[key[depth as int] as int],
                k,
                depth + 1,
            ) == stored_after(
                slot_find(before.children@[key[depth as int] as int], k, depth + 1),
                k,
                key,
                value,
            ),
    ensures
        after.well_placed(key.take(depth as int)),
        forall|k: Seq<u8>|
            k.len() == 32 ==> #[trigger] after.find(k, depth) == stored_after(
                before.find(k, depth),
                k,
                key,
                value,
            ),
        before.expanded(depth) && slot_expanded(
            after.children@[key[depth as int] as int],
            depth + 1,
        ) ==> after.expanded(depth),
{
    let index = key[depth as int] as int;
    let path = key.take(depth as int);
    assert(path.push(index as u8) =~= key.take(depth as int + 1));
    assert forall|i: int| 0 <= i < 256 implies slot_well_placed(
        #[trigger] after.children@[i],
        path.push(i as u8),
    ) by {}
    assert forall|k: Seq<u8>| k.len() == 32 implies #[trigger] after.find(k, depth)
        == stored_after(before.find(k, depth), k, key, value) by {
        let turn = k[depth as int] as int;
        if turn == index {
            assert(slot_find(after.children@[index], k, depth + 1) == stored_after(
                slot_find(before.children@[index], k, depth + 1),
                k,
                key,
                value,
            ));
        }
    }
    if before.expanded(depth) && slot_expanded(after.children@[index], depth + 1) {
        assert forall|i: int| 0 <= i < 256 implies slot_expanded(
            #[trigger] after.children@[i],
            depth + 1,
        ) by {}
    }
}

/// A branch at the end of `path` whose one child sits in the slot `turn`
/// stores what that child stores, given that the child stores nothing under
/// a key that turns elsewhere at this depth.
proof fn lemma_only_child(
    parent: BranchNode,
    path: Seq<u8>,
    turn: int,
    holds: spec_fn(Seq<u8>) -> Option<Value>,
)
    requires
        path.len() <= 30,
        0 <= turn < 256,
        forall|i: int| 0 <= i < 256 && i != turn ==> parent.children@[i] is None,
        slot_well_placed(parent.children@[turn], path.push(turn as u8)),
        slot_expanded(parent.children@[turn], path.len() + 1),
        forall|k: Seq<u8>|
            k.len() == 32 ==> #[trigger] slot_find(parent.children@[turn], k, path.len() + 1)
                == holds(k),
        forall|k: Seq<u8>|
            k.len() == 32 && k[path.len() as int] != turn ==> (#[trigger] holds(k)) is None,
    ensures
        parent.well_placed(path),
        parent.expanded(path.len()),
        forall|k: Seq<u8>| k.len() == 32 ==> #[trigger] parent.find(k, path.len()) == holds(k),
{
    assert forall|i: int| 0 <= i < 256 implies slot_well_placed(
        #[trigger] parent.children@[i],
        path.push(i as u8),
    ) by {}
    assert forall|i: int| 0 <= i < 256 implies slot_expanded(
        #[trigger] parent.children@[i],
        path.len() + 1,
    ) by {}
    assert forall|k: Seq<u8>| k.len() == 32 implies #[trigger] parent.find(k, path.len()) == holds(
        k,
    ) by {
        let taken = k[path.len() as int] as int;
        if taken == turn {
            assert(slot_find(parent.children@[turn], k, path.len() + 1) == holds(k));
        }
    }
}

/// The branch at which the two stems of a split part stores what the old
/// leaf stored and the new key besides.
proof fn lemma_fork(fork: BranchNode, depth: nat, leaf: StemNode, key: Seq<u8>, value: Value)
    requires
        key.len() == 32,
        depth <= 30,
        leaf.stem@[depth as int] != key[depth as int],
        leaf.stem@.take(depth as int) == key.take(depth as int),
        forall|i: int|
            0 <= i < 256 && i != key[depth as int] && i != leaf.stem@[depth as int]
                ==> fork.children@[i] is None,
        slot_well_placed(
            fork.children@[leaf.stem@[depth as int] as int],
            leaf.stem@.take(depth as int + 1),
        ),
        slot_well_placed(fork.children@[key[depth as int] as int], key.take(depth as int + 1)),
        slot_expanded(fork.children@[leaf.stem@[depth as int] as int], depth + 1),
        slot_expanded(fork.children@[key[depth as int] as int], depth + 1),
        forall|k: Seq<u8>|
            k.len() == 32 ==> #[trigger] slot_find(
                fork.children@[leaf.stem@[depth as int] as int],
                k,
                depth + 1,
            ) == leaf.find(k),
        forall|k: Seq<u8>|
            k.len() == 32 ==> #[trigger] slot_find(
                fork.children@[key[depth as int] as int],
                k,
                depth + 1,
            ) == stored_after(None, k, key, value),
    ensures
        fork.well_placed(key.take(depth as int)),
        fork.expanded(depth),
        forall|k: Seq<u8>|
            k.len() == 32 ==> #[trigger] fork.find(k, depth) == stored_after(
                leaf.find(k),
                k,
                key,
                value,
            ),
{
    let old_turn = leaf.stem@[depth as int] as int;
    let new_turn = key[depth as int] as int;
    let path = key.take(depth as int);
    assert(path.push(new_turn as u8) =~= key.take(depth as int + 1));
    assert(path.push(old_turn as u8) =~= leaf.stem@.take(depth as int + 1));
    assert forall|i: int| 0 <= i < 256 implies slot_well_placed(
        #[trigger] fork.children@[i],
        path.push(i as u8),
    ) by {}
    assert forall|i: int| 0 <= i < 256 implies slot_expanded(
        #[trigger] fork.children@[i],
        depth + 1,
    ) by {}
    assert forall|k: Seq<u8>| k.len() == 32 implies #[trigger] fork.find(k, depth)
        == stored_after(leaf.find(k), k, key, value) by {
        let turn = k[depth as int] as int;
        if turn == old_turn {
            assert(slot_find(fork.children@[old_turn], k, depth + 1) == leaf.find(k));
        } else if turn == new_turn {
            assert(slot_find(fork.children@[new_turn], k, depth + 1) == stored_after(
                None,
                k,
                key,
                value,
            ));
        }
    }
}

impl VerkleTree {
    /// The trie's invariant: the root is a branch at depth 0; below it,
    /// branches reach no deeper than depth 30 and none is empty; every leaf
    /// sits at the deepest level, at the end of the path that its own stem
    /// spells; and the root's commitment is zero.
    pub closed spec fn wf(self) -> bool {
        &&& self.root.well_placed(Seq::empty())
        &&& self.root.expanded(0)
        &&& self.root.commitment@ == blank()
    }

    /// The trie as a map from keys to values.
    pub closed spec fn view(self) -> Map<Seq<u8>, Seq<u8>> {
        Map::new(
            |k: Seq<u8>| k.len() == 32 && self.root.find(k, 0) is Some,
            |k: Seq<u8>| self.root.find(k, 0).unwrap()@,
        )
    }

    /// What the trie holds under `key`.
    pub open spec fn lookup(self, key: Seq<u8>) -> Option<Seq<u8>> {
        if self@.contains_key(key) {
            Some(self@[key])
        } else {
            None
        }
    }

    /// An empty trie.
    pub fn new() -> (tree: Self)
        ensures
            tree.wf(),
            tree@ == Map::<Seq<u8>, Seq<u8>>::empty(),
    {
        let tree = VerkleTree { root: BranchNode::new() };
        tree
    }

    /// The value stored under `key`, if there is one.
    ///
    /// The walk takes one stem byte per level and stops at the first leaf;
    /// it does not compare the leaf's stem with the key's, which the trie's
    /// invariant makes equal.
    pub fn get(&self, key: &Key) -> (found: Option<Value>)
        requires
            self.wf(),
        ensures
            bytes_of(found) == self.lookup(key@),
    {
        let stem = get_stem(key);
        let suffix = get_suffix(key);
        let mut current_node = &self.root;
        let mut level: usize = 0;
        proof {
            assert(key@.take(0) =~= Seq::<u8>::empty());
        }
        while level < 31
            invariant
                level <= 31,
                stem@ == stem_of(key@),
                suffix == suffix_of(key@),
                current_node.well_placed(key@.take(level as int)),
                current_node.expanded(level as nat),
                current_node.find(key@, level as nat) == self.root.find(key@, 0),
            decreases 31 - level,
        {
            proof {
                lemma_walk_is_find(*current_node, key@, level as nat);
                assert(key@.take(level as int).push(key@[level as int]) =~= key@.take(level + 1));
            }
            let byte = stem[level];
            match &current_node.children[byte as usize] {
                None => {
                    return None;
                },
                Some(NodeRef::Branch(branch)) => {
                    current_node = branch;
                },
                Some(NodeRef::Stem(stem_node)) => {
                    return stem_node.values[suffix as usize];
                },
            }
            level += 1;
        }
        None
    }

    /// Stores `value` under `key` and returns the value that `key` had before,
    /// if it had one.
    pub fn insert(&mut self, key: Key, value: Value) -> (previous: Option<Value>)
        requires
            old(self).wf(),
        ensures
            final(self).wf(),
            final(self)@ == old(self)@.insert(key@, value@),
            bytes_of(previous) == old(self).lookup(key@),
    {
        let stem = get_stem(&key);
        let suffix = get_suffix(&key);
        let ghost before = *self;
        proof {
            lemma_join_split(key@);
            assert(stem@.take(0) =~= Seq::<u8>::empty());
        }
        let previous = Self::insert_recursive(&mut self.root, &stem, 0, suffix, value);
        proof {
            assert forall|k: Seq<u8>| k.len() == 32 implies #[trigger] self.root.find(k, 0)
                == stored_after(before.root.find(k, 0), k, key@, value) by {}
        }
        previous
    }

    /// The commitment kept at the root: 32 zero bytes, as nothing computes it.
    pub fn root_commitment(&self) -> (commitment: &Commitment)
        requires
            self.wf(),
        ensures
            commitment@ == blank(),
    {
        &self.root.commitment
    }

    /// Stores `value` under the key of `stem` and `suffix` below `node`, a
    /// branch at depth `level`, and returns what was stored there before.
    ///
    /// An empty slot gets a path of new branches down to a new leaf at the
    /// deepest level. A leaf with the same stem takes the value. A leaf with
    /// another stem, which can only sit above the deepest level, is split.
    pub fn insert_recursive(
        node: &mut BranchNode,
        stem: &Stem,
        level: usize,
        suffix: Suffix,
        value: Value,
    ) -> (previous: Option<Value>)
        requires
            level <= 30,
            old(node).well_placed(stem@.take(level as int)),
        ensures
            is_insert(*final(node), *old(node), stem@, level as nat, suffix, value),
            final(node).well_placed(stem@.take(level as int)),
            !final(node).is_empty(),
            old(node).expanded(level as nat) ==> final(node).expanded(level as nat),
            final(node).commitment == old(node).commitment,
            previous == old(node).find(key_of(stem@, suffix), level as nat),
            forall|k: Seq<u8>|
                k.len() == 32 ==> #[trigger] final(node).find(k, level as nat) == stored_after(
                    old(node).find(k, level as nat),
                    k,
                    key_of(stem@, suffix),
                    value,
                ),
        decreases 31 - level, 1int,
    {
        let ghost before = *node;
        let ghost key = key_of(stem@, suffix);
        let ghost path = stem@.take(level as int);
        let byte = stem[level];
        let child_index = byte as usize;
        proof {
            assert(stem_of(key) =~= stem@);
            assert(key.take(level as int) =~= path);
            assert(key.take(level as int + 1) =~= stem@.take(level as int + 1));
            assert(path.push(byte) =~= stem@.take(level as int + 1));
            assert(slot_well_placed(before.children@[child_index as int], path.push(byte)));
        }
        let previous = match &mut node.children[child_index] {
            None => {
                if level == 30 {
                    let mut stem_node = StemNode::new(*stem);
                    stem_node.values[suffix as usize] = Some(value);
                    node.children[child_index] = Some(NodeRef::Stem(Box::new(stem_node)));
                    None
                } else {
                    let mut new_branch = BranchNode::new();
                    let old_value = Self::insert_recursive(
                        &mut new_branch,
                        stem,
                        level + 1,
                        suffix,
                        value,
                    );
                    node.children[child_index] = Some(NodeRef::Branch(Box::new(new_branch)));
                    old_value
                }
            },
            Some(NodeRef::Branch(branch)) => {
                Self::insert_recursive(branch, stem, level + 1, suffix, value)
            },
            Some(NodeRef::Stem(stem_node)) => {
                if stems_equal(&stem_node.stem, stem) {
                    let old_value = stem_node.values[suffix as usize];
                    stem_node.values[suffix as usize] = Some(value);
                    old_value
                } else {
                    Self::split_stem_node(node, child_index, stem, level, suffix, value)
                }
            },
        };
        proof {
            let slot = node.children@[child_index as int];
            let slot_before = before.children@[child_index as int];
            assert forall|k: Seq<u8>| k.len() == 32 implies #[trigger] slot_find(
                slot,
                k,
                level as nat + 1,
            ) == stored_after(slot_find(slot_before, k, level as nat + 1), k, key, value) by {
                if stem_of(k) == stem@ && suffix_of(k) == suffix {
                    assert(k =~= key);
                }
                match slot_before {
                    None => {
                        if level < 30 {
                            let below = slot->Some_0->Branch_0;
                            assert(below.find(k, level as nat + 1) == stored_after(
                                None,
                                k,
                                key,
                                value,
                            ));
                        }
                    },
                    Some(NodeRef::Branch(below_before)) => {
                        let below = slot->Some_0->Branch_0;
                        assert(below.find(k, level as nat + 1) == stored_after(
                            below_before.find(k, level as nat + 1),
                            k,
                            key,
                            value,
                        ));
                    },
                    Some(NodeRef::Stem(_)) => {},
                }
            }
            lemma_replace_slot(*node, before, key, value, level as nat);
        }
        previous
    }

    /// Makes room below the slot `child_index` of `node`, a branch at depth
    /// `depth`, for a stem that differs from the stem of the leaf found
    /// there. The leaf gives way to single-child branches down to the level
    /// at which the two stems part; from the branch at that level each stem
    /// has a path of its own down to its leaf at the deepest level, the old
    /// leaf untouched and the new one holding `value` alone.
    ///
    /// The two stems agree up to `depth`, so they part at a later byte: the
    /// search for that byte cannot run past the last one.
    fn split_stem_node(
        node: &mut BranchNode,
        child_index: usize,
        new_stem: &Stem,
        depth: usize,
        suffix: Suffix,
        value: Value,
    ) -> (previous: Option<Value>)
        requires
            depth <= 30,
            child_index == new_stem@[depth as int],
            old(node).well_placed(new_stem@.take(depth as int)),
            old(node).children@[child_index as int] matches Some(NodeRef::Stem(leaf))
                && leaf.stem@ != new_stem@,
        ensures
            previous is None,
            replaces_slot(*final(node), *old(node), child_index as int),
            final(node).children@[child_index as int] matches Some(NodeRef::Branch(top))
                && is_split(
                *top,
                depth as nat + 1,
                *old(node).children@[child_index as int]->Some_0->Stem_0,
                new_stem@,
                suffix,
                value,
            ),
            slot_well_placed(
                final(node).children@[child_index as int],
                new_stem@.take(depth as int + 1),
            ),
            slot_expanded(final(node).children@[child_index as int], depth as nat + 1),
            forall|k: Seq<u8>|
                k.len() == 32 ==> #[trigger] slot_find(
                    final(node).children@[child_index as int],
                    k,
                    depth as nat + 1,
                ) == stored_after(
                    slot_find(old(node).children@[child_index as int], k, depth as nat + 1),
                    k,
                    key_of(new_stem@, suffix),
                    value,
                ),
        decreases 31 - depth, 0int,
    {
        let ghost before = *node;
        let ghost key = key_of(new_stem@, suffix);
        let old_stem_node = match node.children[child_index].take() {
            Some(NodeRef::Stem(stem_node)) => stem_node,
            _ => unreached(),
        };
        let old_stem = old_stem_node.stem;
        let ghost old_leaf = *old_stem_node;
        let ghost holds = |k: Seq<u8>| stored_after(old_leaf.find(k), k, key, value);
        proof {
            assert(stem_of(key) =~= new_stem@);
            assert forall|j: int| 0 <= j <= depth implies old_stem@[j] == new_stem@[j] by {
                assert(old_stem@.take(depth as int + 1)[j] == new_stem@.take(depth as int + 1)[j]);
            }
            if depth == 30 {
                assert(old_stem@ =~= new_stem@);
            }
        }

        let mut divergence_depth = depth + 1;
        let mut branch_chain: Vec<(usize, BranchNode)> = Vec::new();
        while divergence_depth < 30 && old_stem[divergence_depth] == new_stem[divergence_depth]
            invariant
                depth + 1 <= divergence_depth <= 30,
                branch_chain@.len() == divergence_depth - (depth + 1),
                forall|j: int| 0 <= j < divergence_depth ==> old_stem@[j] == new_stem@[j],
                forall|j: int|
                    0 <= j < branch_chain@.len() ==> (#[trigger] branch_chain@[j]).0
                        == old_stem@[depth + 1 + j] && branch_chain@[j].1.is_empty()
                        && branch_chain@[j].1.commitment@ == blank(),
            decreases 30 - divergence_depth,
        {
            branch_chain.push((old_stem[divergence_depth] as usize, BranchNode::new()));
            divergence_depth += 1;
        }
        proof {
            if old_stem@[divergence_depth as int] == new_stem@[divergence_depth as int] {
                assert(old_stem@ =~= new_stem@);
            }
            let parting = divergence_depth as int;
            assert(key.take(parting) =~= new_stem@.take(parting));
            assert(key.take(parting + 1) =~= new_stem@.take(parting + 1));
            assert(old_stem@.take(parting) =~= new_stem@.take(parting));
        }

        let mut current_branch = BranchNode::new();
        let old_index = old_stem[divergence_depth] as usize;
        let new_index = new_stem[divergence_depth] as usize;

        if divergence_depth == 30 {
            current_branch.children[old_index] = Some(NodeRef::Stem(old_stem_node));
        } else {
            let mut temp_branch = BranchNode::new();
            Self::continue_path_for_old_stem(
                &mut temp_branch,
                &old_stem,
                divergence_depth + 1,
                old_stem_node,
            );
            proof {
                let next = old_stem@[divergence_depth as int + 1] as int;
                let path = old_stem@.take(divergence_depth as int + 1);
                assert(path.push(next as u8) =~= old_stem@.take(divergence_depth as int + 2));
                assert forall|k: Seq<u8>|
                    k.len() == 32 && k[path.len() as int] != next implies (#[trigger] old_leaf.find(
                    k,
                )) is None by {}
                assert forall|i: int| 0 <= i < 256 && i != next implies temp_branch.children@[i]
                    is None by {}
                lemma_only_child(temp_branch, path, next, |k: Seq<u8>| old_leaf.find(k));
            }
            current_branch.children[old_index] = Some(NodeRef::Branch(Box::new(temp_branch)));
        }
        proof {
            assert forall|k: Seq<u8>| k.len() == 32 implies #[trigger] slot_find(
                current_branch.children@[old_index as int],
                k,
                divergence_depth as nat + 1,
            ) == old_leaf.find(k) by {
                if divergence_depth < 30 {
                    let below = current_branch.children@[old_index as int]->Some_0->Branch_0;
                    assert(below.find(k, divergence_depth as nat + 1) == old_leaf.find(k));
                }
            }
        }

        if divergence_depth == 30 {
            let mut new_stem_node = StemNode::new(*new_stem);
            new_stem_node.values[suffix as usize] = Some(value);
            current_branch.children[new_index] = Some(NodeRef::Stem(Box::new(new_stem_node)));
        } else {
            let mut temp_branch = BranchNode::new();
            Self::insert_recursive(&mut temp_branch, new_stem, divergence_depth + 1, suffix, value);
            proof {
                let next = new_stem@[divergence_depth as int + 1] as int;
                assert forall|i: int| 0 <= i < 256 && i != next implies temp_branch.children@[i]
                    is None by {}
            }
            current_branch.children[new_index] = Some(NodeRef::Branch(Box::new(temp_branch)));
        }
        proof {
            assert forall|k: Seq<u8>| k.len() == 32 implies #[trigger] slot_find(
                current_branch.children@[new_index as int],
                k,
                divergence_depth as nat + 1,
            ) == stored_after(None, k, key, value) by {
                if divergence_depth < 30 {
                    let below = current_branch.children@[new_index as int]->Some_0->Branch_0;
                    assert(below.find(k, divergence_depth as nat + 1) == stored_after(
                        None,
                        k,
                        key,
                        value,
                    ));
                } else {
                    if stem_of(k) == new_stem@ && suffix_of(k) == suffix {
                        assert(k =~= key);
                    }
                }
            }
            lemma_fork(current_branch, divergence_depth as nat, old_leaf, key, value);
        }

        let mut top_branch = current_branch;
        while branch_chain.len() > 0
            invariant
                key == key_of(new_stem@, suffix),
                old_stem@ == old_leaf.stem@,
                holds == |k: Seq<u8>| stored_after(old_leaf.find(k), k, key, value),
                depth + 1 + branch_chain@.len() <= 30,
                forall|j: int|
                    0 <= j < depth + 1 + branch_chain@.len() ==> old_stem@[j] == new_stem@[j],
                forall|j: int|
                    0 <= j < branch_chain@.len() ==> (#[trigger] branch_chain@[j]).0
                        == old_stem@[depth + 1 + j] && branch_chain@[j].1.is_empty()
                        && branch_chain@[j].1.commitment@ == blank(),
                !top_branch.is_empty(),
                is_split(
                    top_branch,
                    (depth + 1 + branch_chain@.len()) as nat,
                    old_leaf,
                    new_stem@,
                    suffix,
                    value,
                ),
                top_branch.well_placed(key.take(depth + 1 + branch_chain@.len())),
                top_branch.expanded((depth + 1 + branch_chain@.len()) as nat),
                forall|k: Seq<u8>|
                    k.len() == 32 ==> #[trigger] top_branch.find(
                        k,
                        (depth + 1 + branch_chain@.len()) as nat,
                    ) == holds(k),
            decreases branch_chain@.len(),
        {
            let ghost child = top_branch;
            let ghost above = depth + branch_chain@.len();
            let (idx, mut branch) = branch_chain.pop().unwrap();
            branch.children[idx] = Some(NodeRef::Branch(Box::new(top_branch)));
            top_branch = branch;
            proof {
                let path = key.take(above);
                assert(path.push(idx as u8) =~= key.take(above + 1));
                assert forall|k: Seq<u8>| k.len() == 32 implies #[trigger] slot_find(
                    top_branch.children@[idx as int],
                    k,
                    above as nat + 1,
                ) == holds(k) by {
                    assert(child.find(k, above as nat + 1) == holds(k));
                }
                assert forall|k: Seq<u8>| k.len() == 32 && k[above] != idx implies (
                #[trigger] holds(k)) is None by {}
                lemma_only_child(top_branch, path, idx as int, holds);
            }
        }

        node.children[child_index] = Some(NodeRef::Branch(Box::new(top_branch)));
        proof {
            assert(key.take(depth as int + 1) =~= new_stem@.take(depth as int + 1));
            assert forall|k: Seq<u8>| k.len() == 32 implies #[trigger] slot_find(
                node.children@[child_index as int],
                k,
                depth as nat + 1,
            ) == stored_after(
                slot_find(before.children@[child_index as int], k, depth as nat + 1),
                k,
                key,
                value,
            ) by {
                assert(top_branch.find(k, depth as nat + 1) == holds(k));
            }
        }
        None
    }

    /// Hangs `stem_node` below `node`, a branch at depth `level`, at the end
    /// of a chain of single-child branches that follows `stem` down to the
    /// deepest level.
    fn continue_path_for_old_stem(
        node: &mut BranchNode,
        stem: &Stem,
        level: usize,
        stem_node: Box<StemNode>,
    )
        requires
            level <= 30,
            stem_node.stem@ == stem@,
        ensures
            replaces_slot(*final(node), *old(node), stem@[level as int] as int),
            final(node).children@[stem@[level as int] as int] matches Some(path) && is_chain(
                path,
                stem@,
                level as nat + 1,
            ) && chain_leaf(path, stem@, level as nat + 1) == *stem_node,
            slot_well_placed(
                final(node).children@[stem@[level as int] as int],
                stem@.take(level as int + 1),
            ),
            slot_expanded(final(node).children@[stem@[level as int] as int], level as nat + 1),
            forall|k: Seq<u8>|
                k.len() == 32 ==> #[trigger] slot_find(
                    final(node).children@[stem@[level as int] as int],
                    k,
                    level as nat + 1,
                ) == stem_node.find(k),
        decreases 31 - level,
    {
        if level >= 30 {
            let index = stem[30] as usize;
            node.children[index] = Some(NodeRef::Stem(stem_node));
        } else {
            let index = stem[level] as usize;
            let mut new_branch = BranchNode::new();
            Self::continue_path_for_old_stem(&mut new_branch, stem, level + 1, stem_node);
            proof {
                let next = stem@[level as int + 1] as int;
                let path = stem@.take(level as int + 1);
                assert(path.push(next as u8) =~= stem@.take(level as int + 2));
                assert forall|k: Seq<u8>|
                    k.len() == 32 && k[path.len() as int] != next implies (#[trigger] stem_node.find(
                    k,
                )) is None by {}
                assert forall|i: int| 0 <= i < 256 && i != next implies new_branch.children@[i]
                    is None by {}
                lemma_only_child(new_branch, path, next, |k: Seq<u8>| stem_node.find(k));
            }
            node.children[index] = Some(NodeRef::Branch(Box::new(new_branch)));
            proof {
                assert forall|k: Seq<u8>| k.len() == 32 implies #[trigger] slot_find(
                    node.children@[index as int],
                    k,
                    level as nat + 1,
                ) == stem_node.find(k) by {
                    assert(new_branch.find(k, level as nat + 1) == stem_node.find(k));
                }
            }
        }
    }
}

} // verus!
