use std::fmt::Display;

use geometric_tree::rank::{hash_utf16, hashed_by};
use geometric_tree::tree::{Items, Tree};
use geometric_tree::{ArrayItems, GSet, Options};

/// A string that determines the tree's shape, keys and ranks.
fn fingerprint<K: Display + Clone, V: Clone>(t: &Tree<K, V>) -> String {
    let Some(n) = t else { return ".".into() };
    let items: Vec<String> = n
        .items
        .iter()
        .iter()
        .map(|e| format!("{}{}", fingerprint(&e.left), e.key))
        .collect();
    format!("{}({}){}", n.rank, items.join(","), fingerprint(&n.right))
}

/// Same as `hashString` in the TypeScript tests.
fn hash_string(s: &str) -> u32 {
    let mut h: i32 = 0;
    for c in s.encode_utf16() {
        h = h.wrapping_mul(31).wrapping_add(c as i32);
    }
    h as u32
}

#[test]
fn a_fixed_set_has_the_same_fingerprint_as_in_the_typescript_package() {
    // The TypeScript package hashes `String(key)`; keys stay numbers for ordering.
    let rank = hashed_by::<u64, _>(4, |key: &u64, seed: u32| hash_utf16(&key.to_string(), seed));
    let mut set = GSet::with(Options {
        rank,
        empty: ArrayItems::default(),
    });
    set.extend((0..1000u64).map(|i| i * 7919).collect());
    assert_eq!(hash_string(&fingerprint(set.root())), 1801069496);
}
