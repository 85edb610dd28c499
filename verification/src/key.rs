//! Splitting a key into stem and suffix, and joining them again.

use vstd::prelude::*;

verus! {

/// A key: 32 opaque bytes.
pub type Key = [u8; 32];

/// A value: 32 opaque bytes.
pub type Value = [u8; 32];

/// The first 31 bytes of a key.
pub type Stem = [u8; 31];

/// The last byte of a key.
pub type Suffix = u8;

/// Room for a commitment over a node's contents. Never computed here.
pub type Commitment = [u8; 32];

/// The commitment that nothing has computed: 32 zero bytes.
pub open spec fn blank() -> Seq<u8> {
    Seq::new(32, |i: int| 0u8)
}

/// The stem of a key, as a sequence of bytes.
pub open spec fn stem_of(key: Seq<u8>) -> Seq<u8> {
    key.take(31)
}

/// The suffix of a key.
pub open spec fn suffix_of(key: Seq<u8>) -> u8 {
    key[31]
}

/// The key made of a stem and a suffix.
pub open spec fn key_of(stem: Seq<u8>, suffix: u8) -> Seq<u8> {
    stem.push(suffix)
}

/// The first 31 bytes of `key`.
pub fn get_stem(key: &Key) -> (stem: Stem)
    ensures
        stem@ == stem_of(key@),
{
    let mut stem: Stem = [0u8; 31];
    let mut i: usize = 0;
    while i < 31
        invariant
            i <= 31,
            forall|j: int| 0 <= j < i ==> stem@[j] == key@[j],
        decreases 31 - i,
    {
        stem[i] = key[i];
        i += 1;
    }
    stem
}

/// The last byte of `key`.
pub fn get_suffix(key: &Key) -> (suffix: Suffix)
    ensures
        suffix == suffix_of(key@),
{
    key[31]
}

/// The key whose stem is `stem` and whose suffix is `suffix`.
pub fn make_key(stem: &Stem, suffix: Suffix) -> (key: Key)
    ensures
        key@ == key_of(stem@, suffix),
{
    let mut key: Key = [0u8; 32];
    let mut i: usize = 0;
    while i < 31
        invariant
            i <= 31,
            forall|j: int| 0 <= j < i ==> key@[j] == stem@[j],
        decreases 31 - i,
    {
        key[i] = stem[i];
        i += 1;
    }
    key[31] = suffix;
    key
}

/// Whether two stems hold the same bytes.
pub fn stems_equal(a: &Stem, b: &Stem) -> (same: bool)
    ensures
        same == (a@ == b@),
{
    let mut i: usize = 0;
    while i < 31
        invariant
            i <= 31,
            forall|j: int| 0 <= j < i ==> a@[j] == b@[j],
        decreases 31 - i,
    {
        if a[i] != b[i] {
            return false;
        }
        i += 1;
    }
    assert(a@ =~= b@);
    true
}

/// Joining what `get_stem` and `get_suffix` give restores the key.
pub proof fn lemma_join_split(key: Seq<u8>)
    requires
        key.len() == 32,
    ensures
        key_of(stem_of(key), suffix_of(key)) == key,
{
}

/// Splitting a joined key gives back the stem and the suffix.
pub proof fn lemma_split_join(stem: Seq<u8>, suffix: u8)
    requires
        stem.len() == 31,
    ensures
        stem_of(key_of(stem, suffix)) == stem,
        suffix_of(key_of(stem, suffix)) == suffix,
{
}

} // verus!
