use verkle_trie::{get_stem, get_suffix, make_key, Key, Stem};
use verkle_trie::key::stems_equal;

fn counting_key() -> Key {
    let mut key = [0u8; 32];
    for i in 0..32 {
        key[i] = (i as u8) * 3 + 1;
    }
    key
}

#[test]
fn stem_is_the_first_31_bytes() {
    let key = counting_key();
    let stem = get_stem(&key);
    assert_eq!(stem.len(), 31);
    assert_eq!(&stem[..], &key[0..31]);
    assert_eq!(stem[0], 1);
    assert_eq!(stem[30], 91);
}

#[test]
fn suffix_is_the_last_byte() {
    let key = counting_key();
    assert_eq!(get_suffix(&key), 94);
    let mut other = [0u8; 32];
    other[31] = 255;
    assert_eq!(get_suffix(&other), 255);
    assert_eq!(get_suffix(&[0u8; 32]), 0);
}

#[test]
fn make_key_puts_the_suffix_last() {
    let mut stem: Stem = [7u8; 31];
    stem[0] = 9;
    let key = make_key(&stem, 200);
    assert_eq!(&key[0..31], &stem[..]);
    assert_eq!(key[31], 200);
    assert_eq!(key[0], 9);
}

#[test]
fn join_after_split_restores_the_key() {
    let key = counting_key();
    assert_eq!(make_key(&get_stem(&key), get_suffix(&key)), key);
    let all_high = [255u8; 32];
    assert_eq!(make_key(&get_stem(&all_high), get_suffix(&all_high)), all_high);
    let zero = [0u8; 32];
    assert_eq!(make_key(&get_stem(&zero), get_suffix(&zero)), zero);
}

#[test]
fn split_after_join_restores_stem_and_suffix() {
    let mut stem: Stem = [0u8; 31];
    stem[30] = 1;
    stem[12] = 77;
    let key = make_key(&stem, 5);
    assert_eq!(get_stem(&key), stem);
    assert_eq!(get_suffix(&key), 5);
}

#[test]
fn stems_equal_compares_every_byte() {
    let a: Stem = [4u8; 31];
    let mut b: Stem = [4u8; 31];
    assert!(stems_equal(&a, &b));
    b[30] = 5;
    assert!(!stems_equal(&a, &b));
    b[30] = 4;
    b[0] = 5;
    assert!(!stems_equal(&a, &b));
    b[0] = 4;
    b[17] = 0;
    assert!(!stems_equal(&a, &b));
}
