use std::cmp::Ordering;
use std::fmt::Display;

use geometric_tree::rank::{hashed, Rank};
use geometric_tree::tree::{entries, find, insert, node, remove, single, size, unzip, zip, ArrayItems, Entry, Items, Slice, Tree};

/// A small seeded PRNG (mulberry32) so failures reproduce.
struct Prng(u32);

impl Prng {
    fn new(seed: u32) -> Self {
        Prng(seed)
    }
    fn next_f64(&mut self) -> f64 {
        self.0 = self.0.wrapping_add(0x6d2b79f5);
        let mut t = self.0;
        t = (t ^ (t >> 15)).wrapping_mul(1 | t);
        t = (t.wrapping_add((t ^ (t >> 7)).wrapping_mul(61 | t))) ^ t;
        (t ^ (t >> 14)) as f64 / 4294967296.0
    }
    fn below(&mut self, n: usize) -> usize {
        (self.next_f64() * n as f64) as usize
    }
}

fn shuffle<T: Clone>(xs: &[T], rand: &mut Prng) -> Vec<T> {
    let mut a = xs.to_vec();
    for i in (1..a.len()).rev() {
        let j = rand.below(i + 1);
        a.swap(i, j);
    }
    a
}

/// Primes with hand-picked ranks.
const FIXTURE: [(u64, u32); 20] = [
    (2, 1),
    (3, 2),
    (5, 1),
    (7, 3),
    (11, 1),
    (13, 2),
    (17, 1),
    (19, 1),
    (23, 2),
    (29, 2),
    (31, 3),
    (37, 1),
    (41, 2),
    (43, 2),
    (47, 1),
    (53, 3),
    (59, 1),
    (61, 2),
    (67, 3),
    (71, 2),
];

fn primes() -> Vec<u64> {
    FIXTURE.iter().map(|&(k, _)| k).collect()
}

fn fixed(key: &u64) -> u32 {
    FIXTURE
        .iter()
        .find(|&&(k, _)| k == *key)
        .expect("fixture key")
        .1
}

/// A string that determines the tree's shape, keys and ranks.
fn fingerprint<K: Display + Clone, V: Clone>(t: &Tree<K, V>) -> String {
    let Some(n) = t else { return ".".into() };
    let items: Vec<String> = n
        .items
        .iter()
        .iter()
        .map(|e| format!("{}{}", fingerprint(&e.left), e.key))
        .collect();
    format!("{}({}){}", n.rank, items.join(","), fingerprint(&n.right))
}

/// Assert the G-tree invariants and return the keys in order.
fn check<K: Ord + Clone, V: Clone>(t: &Tree<K, V>, rank: &dyn Fn(&K) -> u32) -> Vec<K> {
    fn go<K: Ord + Clone, V: Clone>(t: &Tree<K, V>, rank: &dyn Fn(&K) -> u32, above: u32) -> Vec<K> {
        let Some(n) = t else { return vec![] };
        assert!(n.rank < above, "rank does not decrease");
        assert!(n.items.weight() > 0, "empty node");
        let mut keys = Vec::new();
        for e in n.items.iter() {
            keys.extend(go(&e.left, rank, n.rank));
            assert_eq!(rank(&e.key), n.rank, "key in a node of another rank");
            keys.push(e.key.clone());
        }
        keys.extend(go(&n.right, rank, n.rank));
        assert!(keys.windows(2).all(|w| w[0] < w[1]), "keys out of order");
        assert_eq!(n.size, keys.len(), "wrong size");
        keys
    }
    go(t, rank, u32::MAX)
}

type T = Tree<u64, ()>;

fn at(key: u64) -> impl Fn(&Entry<u64, ()>) -> Ordering {
    move |e| e.key.cmp(&key)
}

fn one(key: u64, rank: u32) -> T {
    single(key, (), rank, &ArrayItems::default())
}

fn build(keys: &[u64], rank: &dyn Fn(&u64) -> u32) -> T {
    let mut t = None;
    for &key in keys {
        t = insert(&t, &at(key), &one(key, rank(&key)));
    }
    t
}

#[test]
fn tree_insertion_order_does_not_matter() {
    let mut rand = Prng::new(1);
    let expected = build(&primes(), &fixed);
    assert_eq!(check(&expected, &fixed), primes());
    for _ in 0..50 {
        assert_eq!(
            fingerprint(&build(&shuffle(&primes(), &mut rand), &fixed)),
            fingerprint(&expected)
        );
    }
}

#[test]
fn root_holds_the_keys_of_maximal_rank() {
    let root = build(&primes(), &fixed).unwrap();
    assert_eq!(root.rank, 3);
    let keys: Vec<u64> = root.items.iter().iter().map(|e| e.key).collect();
    assert_eq!(keys, [7, 31, 53, 67]);
    assert_eq!(size(&root.right), 1);
}

#[test]
fn unzip_then_zip_is_the_identity() {
    let t = build(&primes(), &fixed);
    for key in [0, 1, 2, 30, 31, 53, 71, 100] {
        let (l, hit, r) = unzip(&t, &at(key));
        let before: Vec<u64> = primes().into_iter().filter(|&p| p < key).collect();
        let after: Vec<u64> = primes().into_iter().filter(|&p| p > key).collect();
        assert_eq!(check(&l, &fixed), before);
        assert_eq!(check(&r, &fixed), after);
        assert_eq!(
            hit.as_ref().map(|e| e.key),
            primes().contains(&key).then_some(key)
        );
        let back = match hit {
            Some(_) => zip(&zip(&l, &one(key, fixed(&key))), &r),
            None => zip(&l, &r),
        };
        assert_eq!(fingerprint(&back), fingerprint(&t));
    }
}

#[test]
fn zip_of_two_ordered_trees_is_the_tree_of_their_union() {
    let expected = fingerprint(&build(&primes(), &fixed));
    for i in 0..=primes().len() {
        let l = build(&primes()[..i], &fixed);
        let r = build(&primes()[i..], &fixed);
        assert_eq!(fingerprint(&zip(&l, &r)), expected);
    }
}

#[test]
fn remove_keys() {
    let mut t = build(&primes(), &fixed);
    let mut rest = primes();
    for key in shuffle(&primes(), &mut Prng::new(2)) {
        t = remove(&t, &at(key));
        rest.retain(|&p| p != key);
        assert_eq!(fingerprint(&t), fingerprint(&build(&rest, &fixed)));
    }
    assert!(t.is_none());
}

#[test]
fn find_returns_the_entry_at_or_after_a_position() {
    let t = build(&primes(), &fixed);
    assert_eq!(find(&t, &at(31)).map(|e| e.key), Some(31));
    assert_eq!(find(&t, &at(30)).map(|e| e.key), Some(31));
    assert_eq!(find(&t, &at(0)).map(|e| e.key), Some(2));
    assert!(find(&t, &at(72)).is_none());
}

#[test]
fn insert_replaces_the_entry_at_the_same_position() {
    type S = Tree<u64, &'static str>;
    let boxed = |v| single(1u64, v, 1, &ArrayItems::default());
    let at = |e: &Entry<u64, &str>| e.key.cmp(&1);
    let t: S = insert(&None, &at, &boxed("a"));
    let t = insert(&t, &at, &boxed("b"));
    let mut cursor = entries(&t);
    let mut got: Vec<(u64, &str)> = Vec::new();
    while let Some(e) = cursor.next() {
        got.push((e.key, *e.value()));
    }
    assert_eq!(got, [(1, "b")]);
}

#[test]
fn hashed_ranks_keep_the_invariants_for_many_keys_and_any_k() {
    for k in [2, 3, 8, 32] {
        let rank = hashed(k);
        let rank = |key: &u64| Rank::<u64>::rank(&rank, key, 0);
        let keys: Vec<u64> = (0..2000).collect();
        let t = build(&shuffle(&keys, &mut Prng::new(k)), &rank);
        assert_eq!(check(&t, &rank), keys);
    }
}

#[test]
fn entries_iterate_lazily_in_order() {
    let t = build(&primes(), &fixed);
    let mut cursor = entries(&t);
    let first_three: Vec<u64> = (0..3).map(|_| cursor.next().unwrap().key).collect();
    assert_eq!(first_three, [2, 3, 5]);
    assert_eq!(entries(&t).count(), 20);
}

#[test]
fn entries_cursor_walks_every_entry_once() {
    let t = build(&primes(), &fixed);
    let mut cursor = entries(&t);
    let mut seen = Vec::new();
    while let Some(e) = cursor.next() {
        seen.push(e.key);
    }
    assert_eq!(seen, primes());
    assert!(cursor.next().is_none());
    assert_eq!(cursor.count(), 0);
    let mut partly = entries(&t);
    for _ in 0..7 {
        partly.next();
    }
    assert_eq!(partly.count(), 13);
}

#[test]
fn empty_tree_edges() {
    let t: T = None;
    assert_eq!(size(&t), 0);
    assert!(find(&t, &at(1)).is_none());
    let (l, hit, r) = unzip(&t, &at(1));
    assert!(l.is_none() && hit.is_none() && r.is_none());
    assert!(zip(&t, &t).is_none());
    assert!(remove(&t, &at(1)).is_none());
    assert_eq!(entries(&t).count(), 0);
    assert!(node(4, ArrayItems::<u64, ()>::default(), None).is_none());
}

#[test]
fn single_node_and_sizes() {
    let t = one(5, 2);
    let n = t.as_ref().unwrap();
    assert_eq!(n.rank, 2);
    assert_eq!(n.size, 1);
    assert_eq!(size(&t), 1);
    assert_eq!(n.items.weight(), 1);
    let e = &n.items.iter()[0];
    assert_eq!(e.weight(), 1);
    let t = build(&primes(), &fixed);
    assert_eq!(size(&t), 20);
    let root = t.as_ref().unwrap();
    assert_eq!(root.items.iter()[1].weight(), 1 + size(&root.items.iter()[1].left));
}

#[test]
fn slice_split_join_shift_and_unshift() {
    let t = build(&primes(), &fixed);
    let items = &t.as_ref().unwrap().items.0;
    assert_eq!(items.len(), 4);
    assert!(!items.is_empty());
    let (before, hit, after) = items.split(&at(31));
    assert_eq!(hit.map(|e| e.key), Some(31));
    assert_eq!(before.iter().iter().map(|e| e.key).collect::<Vec<_>>(), [7]);
    assert_eq!(after.iter().iter().map(|e| e.key).collect::<Vec<_>>(), [53, 67]);
    let (before, hit, after) = items.split(&at(40));
    assert!(hit.is_none());
    assert_eq!(before.len(), 2);
    assert_eq!(after.len(), 2);
    let joined = before.join(&after);
    assert_eq!(joined.iter().iter().map(|e| e.key).collect::<Vec<_>>(), [7, 31, 53, 67]);
    assert_eq!(joined.weight, items.weight);
    assert_eq!(items.find(&at(40)).map(|e| e.key), Some(53));
    assert!(items.find(&at(68)).is_none());
    let (first, rest) = items.shift();
    assert_eq!(first.key, 7);
    assert_eq!(rest.len(), 3);
    assert_eq!(rest.weight, items.weight - first.weight());
    let back = rest.unshift(first);
    assert_eq!(back.iter().iter().map(|e| e.key).collect::<Vec<_>>(), [7, 31, 53, 67]);
    assert_eq!(back.weight, items.weight);
    assert!(Slice::<u64, ()>::new(Vec::new()).is_empty());
}
