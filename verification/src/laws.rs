//! What holds of every trie, whatever was stored in it.

use vstd::prelude::*;
use crate::key::{stem_of, suffix_of, Key, Value};
use crate::tree::VerkleTree;

verus! {

/// What a trie holds after the writes of `writes`, first to last, into an
/// empty trie.
pub open spec fn contents_after(writes: Seq<(Key, Value)>) -> Map<Seq<u8>, Seq<u8>>
    decreases writes.len(),
{
    if writes.len() == 0 {
        Map::empty()
    } else {
        contents_after(writes.drop_last()).insert(writes.last().0@, writes.last().1@)
    }
}

/// A key reads back the value that was just stored under it.
pub proof fn law_get_after_insert(before: VerkleTree, after: VerkleTree, key: Key, value: Value)
    requires
        after@ == before@.insert(key@, value@),
    ensures
        after.lookup(key@) == Some(value@),
{
}

/// A trie holds a key if and only if some earlier write stored that key, and
/// then it holds the value of the last such write. So a write returns a
/// previous value exactly when its key was written before.
pub proof fn law_previous_iff_written(tree: VerkleTree, writes: Seq<(Key, Value)>, key: Key)
    requires
        tree@ == contents_after(writes),
    ensures
        tree.lookup(key@) is Some <==> exists|i: int|
            0 <= i < writes.len() && (#[trigger] writes[i]).0@ == key@,
        forall|i: int|
            0 <= i < writes.len() && (#[trigger] writes[i]).0@ == key@ && (forall|j: int|
                i < j < writes.len() ==> (#[trigger] writes[j]).0@ != key@) ==> tree.lookup(key@)
                == Some(writes[i].1@),
{
    lemma_contents_after(writes, key@);
}

/// The map form of `law_previous_iff_written`.
pub proof fn lemma_contents_after(writes: Seq<(Key, Value)>, key: Seq<u8>)
    ensures
        contents_after(writes).contains_key(key) <==> exists|i: int|
            0 <= i < writes.len() && (#[trigger] writes[i]).0@ == key,
        forall|i: int|
            0 <= i < writes.len() && (#[trigger] writes[i]).0@ == key && (forall|j: int|
                i < j < writes.len() ==> (#[trigger] writes[j]).0@ != key) ==> contents_after(
                writes,
            ).contains_key(key) && contents_after(writes)[key] == writes[i].1@,
    decreases writes.len(),
{
    if writes.len() > 0 {
        let earlier = writes.drop_last();
        lemma_contents_after(earlier, key);
        let last = writes.len() - 1;
        if writes[last].0@ != key && exists|i: int|
            0 <= i < writes.len() && (#[trigger] writes[i]).0@ == key {
            let i = choose|i: int| 0 <= i < writes.len() && (#[trigger] writes[i]).0@ == key;
            assert(earlier[i] == writes[i]);
        }
        assert forall|i: int|
            0 <= i < writes.len() && (#[trigger] writes[i]).0@ == key && (forall|j: int|
                i < j < writes.len() ==> (#[trigger] writes[j]).0@ != key) implies contents_after(
            writes,
        ).contains_key(key) && contents_after(writes)[key] == writes[i].1@ by {
            if i < last {
                assert(earlier[i] == writes[i]);
                assert forall|j: int| i < j < earlier.len() implies (#[trigger] earlier[j]).0@
                    != key by {}
            }
        }
    }
}

/// Writing a key twice: the second write finds the first value there, and
/// the key then reads back the second.
pub proof fn law_overwrite(
    start: VerkleTree,
    once: VerkleTree,
    twice: VerkleTree,
    key: Key,
    first: Value,
    second: Value,
)
    requires
        once@ == start@.insert(key@, first@),
        twice@ == once@.insert(key@, second@),
    ensures
        once.lookup(key@) == Some(first@),
        twice.lookup(key@) == Some(second@),
{
}

/// Two keys with one stem and different suffixes do not touch each other:
/// a write under one leaves what the other reads unchanged.
pub proof fn law_suffixes_independent(
    before: VerkleTree,
    after: VerkleTree,
    written: Key,
    other: Key,
    value: Value,
)
    requires
        stem_of(written@) == stem_of(other@),
        suffix_of(written@) != suffix_of(other@),
        after@ == before@.insert(written@, value@),
    ensures
        after.lookup(other@) == before.lookup(other@),
{
}

/// Two keys with different stems both read back their values once both are
/// written, wherever their paths part, and every other key reads what it
/// read before.
pub proof fn law_stems_independent(
    start: VerkleTree,
    once: VerkleTree,
    twice: VerkleTree,
    a: Key,
    value_a: Value,
    b: Key,
    value_b: Value,
)
    requires
        stem_of(a@) != stem_of(b@),
        once@ == start@.insert(a@, value_a@),
        twice@ == once@.insert(b@, value_b@),
    ensures
        twice.lookup(a@) == Some(value_a@),
        twice.lookup(b@) == Some(value_b@),
        forall|k: Seq<u8>| k != a@ && k != b@ ==> twice.lookup(k) == start.lookup(k),
{
}

/// An empty trie holds nothing, and no trie holds a key whose stem none of
/// its keys has.
pub proof fn law_absent(tree: VerkleTree, key: Key)
    requires
        tree@ == Map::<Seq<u8>, Seq<u8>>::empty() || forall|k: Seq<u8>|
            tree@.contains_key(k) ==> stem_of(k) != stem_of(key@),
    ensures
        tree.lookup(key@) is None,
{
}

} // verus!
