use std::collections::{BTreeMap, BTreeSet};
use std::fmt::Display;
use std::sync::Arc;

use geometric_tree::rank::{hash, hashed, hashed_by, Rank};
use geometric_tree::list;
use geometric_tree::tree::{entries, unzip, Items, Tree};
use geometric_tree::{GList, GMap, GSet, Options};

/// A small seeded PRNG (mulberry32) so failures reproduce.
struct Prng(u32);

impl Prng {
    fn new(seed: u32) -> Self {
        Prng(seed)
    }
    fn next_f64(&mut self) -> f64 {
        self.0 = self.0.wrapping_add(0x6d2b79f5);
        let mut t = self.0;
        t = (t ^ (t >> 15)).wrapping_mul(1 | t);
        t = (t.wrapping_add((t ^ (t >> 7)).wrapping_mul(61 | t))) ^ t;
        (t ^ (t >> 14)) as f64 / 4294967296.0
    }
    fn below(&mut self, n: usize) -> usize {
        (self.next_f64() * n as f64) as usize
    }
}

fn shuffle<T: Clone>(xs: &[T], rand: &mut Prng) -> Vec<T> {
    let mut a = xs.to_vec();
    for i in (1..a.len()).rev() {
        let j = rand.below(i + 1);
        a.swap(i, j);
    }
    a
}

/// A string that determines the tree's shape, keys and ranks.
fn fingerprint<K: Display + Clone, V: Clone>(t: &Tree<K, V>) -> String {
    let Some(n) = t else { return ".".into() };
    let items: Vec<String> = n
        .items
        .iter()
        .iter()
        .map(|e| format!("{}{}", fingerprint(&e.left), e.key))
        .collect();
    format!("{}({}){}", n.rank, items.join(","), fingerprint(&n.right))
}

/// Assert the G-tree invariants and return the keys in order.
fn check<K: Ord + Clone, V: Clone>(t: &Tree<K, V>, rank: &dyn Fn(&K) -> u32) -> Vec<K> {
    fn go<K: Ord + Clone, V: Clone>(t: &Tree<K, V>, rank: &dyn Fn(&K) -> u32, above: u32) -> Vec<K> {
        let Some(n) = t else { return vec![] };
        assert!(n.rank < above, "rank does not decrease");
        assert!(n.items.weight() > 0, "empty node");
        let mut keys = Vec::new();
        for e in n.items.iter() {
            keys.extend(go(&e.left, rank, n.rank));
            assert_eq!(rank(&e.key), n.rank, "key in a node of another rank");
            keys.push(e.key.clone());
        }
        keys.extend(go(&n.right, rank, n.rank));
        assert!(keys.windows(2).all(|w| w[0] < w[1]), "keys out of order");
        assert_eq!(n.size, keys.len(), "wrong size");
        keys
    }
    go(t, rank, u32::MAX)
}

#[test]
fn map_behaves_like_btreemap_in_key_order() {
    let mut rand = Prng::new(3);
    let mut map = GMap::<u64, String>::new();
    let mut reference = BTreeMap::new();
    for i in 0..5000 {
        let key = rand.below(1000) as u64;
        if rand.next_f64() < 0.3 {
            map = map.remove(&key);
            reference.remove(&key);
        } else {
            map = map.insert(key, format!("v{i}"));
            reference.insert(key, format!("v{i}"));
        }
        assert_eq!(map.len(), reference.len());
        assert_eq!(map.get(&key), reference.get(&key));
        assert_eq!(map.contains_key(&key), reference.contains_key(&key));
    }
    let got: Vec<(u64, String)> = map.iter().into_iter().map(|(k, v)| (*k, v.clone())).collect();
    let want: Vec<(u64, String)> = reference.iter().map(|(k, v)| (*k, v.clone())).collect();
    assert_eq!(got, want);
    let rank = hashed(8);
    check(&map.root, &|k| Rank::<u64>::rank(&rank, k, 0));
}

#[test]
fn map_is_persistent_and_history_independent() {
    let a: GMap<u64, u64> = GMap::from_pairs((0..500u64).map(|i| (i, i * i)).collect());
    let b = a.insert(1000, 0).remove(&1);
    assert_eq!(a.len(), 500);
    assert_eq!(b.len(), 500);
    assert!(a.contains_key(&1) && !b.contains_key(&1));
    let mut rand = Prng::new(4);
    let pairs: Vec<(u64, u64)> = (0..500u64).map(|i| (i, i * i)).collect();
    for _ in 0..10 {
        let mut m: GMap<u64, u64> = GMap::from_pairs(shuffle(&pairs, &mut rand));
        for (k, _) in shuffle(&pairs[..100], &mut rand) {
            m = m.remove(&k);
        }
        for (k, v) in shuffle(&pairs[..100], &mut rand) {
            m = m.insert(k, v);
        }
        assert_eq!(fingerprint(&m.root), fingerprint(&a.root));
    }
}

#[test]
fn map_insert_replaces_and_remove_of_absent_is_a_clone() {
    let m: GMap<u64, &str> = GMap::from_pairs(vec![(1, "a"), (2, "b")]);
    let n = m.insert(1, "c");
    assert_eq!(n.len(), 2);
    assert_eq!(n.get(&1), Some(&"c"));
    assert_eq!(m.get(&1), Some(&"a"));
    let r = m.remove(&9);
    assert_eq!(fingerprint(&r.root), fingerprint(&m.root));
    let dup: GMap<u64, &str> = GMap::from_pairs(vec![(1, "a"), (1, "b")]);
    assert_eq!(dup.iter(), [(&1, &"b")]);
}

#[test]
fn set_behaves_like_btreeset() {
    let mut rand = Prng::new(5);
    let mut set = GSet::<u64>::new();
    let mut reference = BTreeSet::new();
    for _ in 0..5000 {
        let key = rand.below(1000) as u64;
        if rand.next_f64() < 0.3 {
            set = set.remove(&key);
            reference.remove(&key);
        } else {
            set = set.insert(key);
            reference.insert(key);
        }
        assert_eq!(set.len(), reference.len());
        assert_eq!(set.contains(&key), reference.contains(&key));
    }
    assert_eq!(
        set.iter().into_iter().copied().collect::<Vec<_>>(),
        reference.iter().copied().collect::<Vec<_>>()
    );
    let again: GSet<u64> = GSet::from_keys(reference.iter().rev().copied().collect());
    assert_eq!(fingerprint(set.root()), fingerprint(again.root()));
    assert_eq!(GSet::<u64>::from_keys(vec![1, 1, 1]).len(), 1);
}

#[test]
fn list_behaves_like_vec_under_random_edits() {
    let mut rand = Prng::new(7);
    let mut list = GList::<u32>::with_k(4);
    let mut reference: Vec<u32> = Vec::new();
    for i in 0..3000u32 {
        let r = rand.next_f64();
        let pos = rand.below(reference.len() + 1);
        if r < 0.2 {
            list = list.push_back(i);
            reference.push(i);
        } else if r < 0.4 {
            list = list.push_front(i);
            reference.insert(0, i);
        } else if r < 0.7 {
            list = list.insert(pos, i);
            reference.insert(pos, i);
        } else if !reference.is_empty() {
            let j = pos.min(reference.len() - 1);
            list = list.remove(j);
            reference.remove(j);
        }
        assert_eq!(list.len(), reference.len());
        assert_eq!(list.get(pos), reference.get(pos));
    }
    assert_eq!(list.iter().into_iter().copied().collect::<Vec<_>>(), reference);
}

#[test]
#[allow(clippy::reversed_empty_ranges)]
fn list_slice_concat_and_split_agree_with_vec() {
    let xs: Vec<u32> = (0..100).collect();
    let list: GList<u32> = GList::from_vec(xs.clone());
    let v = |l: &GList<u32>| l.iter().into_iter().copied().collect::<Vec<_>>();
    assert_eq!(v(&list.slice(..)), xs);
    assert_eq!(v(&list.slice(10..20)), xs[10..20]);
    assert_eq!(v(&list.slice(95..)), xs[95..]);
    assert_eq!(v(&list.slice(..3)), xs[..3]);
    assert_eq!(v(&list.slice(50..10)), Vec::<u32>::new());
    assert_eq!(v(&list.slice(7..=7)), xs[7..=7]);
    assert_eq!(v(&list.slice(98..500)), xs[98..]);
    let rotated = list.slice(20..).concat(&list.slice(..20));
    assert_eq!(v(&rotated), [&xs[20..], &xs[..20]].concat());
    for i in [0, 1, 42, 100, 200] {
        let (l, r) = list.split_at(i);
        assert_eq!(v(&l), xs[..i.min(100)]);
        assert_eq!(v(&r), xs[i.min(100)..]);
    }
    assert_eq!(list.get(100), None);
    assert_eq!(list.remove(500).len(), 100);
    assert!(GList::<u32>::new().is_empty());
}

#[test]
fn map_keys_values_extend_and_default() {
    let mut m: GMap<u64, u64> = GMap::default();
    assert!(m.is_empty());
    m.extend(vec![(3, 30), (1, 10), (2, 20), (1, 11)]);
    assert_eq!(m.len(), 3);
    assert_eq!(m.keys(), [&1, &2, &3]);
    assert_eq!(m.values(), [&11, &20, &30]);
    assert_eq!(m.get(&4), None);
    assert!(!m.contains_key(&4));
    let with: GMap<u64, u64> = GMap::with(Options::new(4, geometric_tree::ArrayItems::default()));
    let with = with.insert(5, 50);
    assert_eq!(with.iter(), [(&5, &50)]);
    let rank = hashed(4);
    check(&with.root, &|k| Rank::<u64>::rank(&rank, k, 0));
}

#[test]
fn set_extend_and_default() {
    let mut s: GSet<u64> = GSet::default();
    assert!(s.is_empty());
    s.extend(vec![5, 3, 5, 1]);
    assert_eq!(s.len(), 3);
    assert_eq!(s.iter(), [&1, &3, &5]);
    assert!(s.contains(&3) && !s.contains(&4));
    let t = s.remove(&3).insert(3);
    assert_eq!(fingerprint(t.root()), fingerprint(s.root()));
}

#[test]
fn list_edges() {
    let empty = GList::<u32>::default();
    assert_eq!(empty.len(), 0);
    assert_eq!(empty.get(0), None);
    assert!(empty.remove(0).is_empty());
    let one = empty.insert(7, 9);
    assert_eq!(one.iter(), [&9]);
    let (l, r) = one.split_at(0);
    assert!(l.is_empty());
    assert_eq!(r.len(), 1);
    let xs = GList::from_vec(vec![1u32, 2, 3]);
    assert_eq!(xs.concat(&GList::new()).iter(), [&1, &2, &3]);
    assert_eq!(GList::new().concat(&xs).iter(), [&1, &2, &3]);
    assert_eq!(xs.slice(1..1).len(), 0);
    assert_eq!(xs.slice(..=1).iter(), [&1, &2]);
    assert_eq!(xs.push_front(0).push_back(4).iter(), [&0, &1, &2, &3, &4]);
}

#[test]
fn maps_with_a_hash_function_depend_only_on_their_contents() {
    let options = || Options {
        rank: hashed_by::<u64, _>(4, |k: &u64, seed: u32| hash(k, seed)),
        empty: geometric_tree::ArrayItems::default(),
    };
    let mut rand = Prng::new(9);
    let pairs: Vec<(u64, u64)> = (0..300u64).map(|i| (i * 3, i)).collect();
    let mut a = GMap::with(options());
    a.extend(pairs.clone());
    let mut b = GMap::with(options());
    b.extend(shuffle(&pairs, &mut rand));
    for (k, v) in shuffle(&pairs[..50], &mut rand) {
        b = b.remove(&k).insert(k, v);
    }
    assert_eq!(fingerprint(&a.root), fingerprint(&b.root));
    let mut s = GSet::with(Options {
        rank: hashed_by::<u64, _>(4, |k: &u64, seed: u32| hash(k, seed)),
        empty: geometric_tree::ArrayItems::default(),
    });
    s.extend(shuffle(&(0..300u64).map(|i| i * 3).collect::<Vec<_>>(), &mut rand));
    assert_eq!(fingerprint(&a.root), fingerprint(s.root()));
}

#[test]
fn list_split_at_the_ends_returns_the_tree_itself() {
    let l = GList::from_vec(vec![1u32, 2, 3]);
    let (a, b) = list::split_at(&l.root, 0);
    assert!(a.is_none());
    assert!(Arc::ptr_eq(b.as_ref().unwrap(), l.root.as_ref().unwrap()));
    let (a, b) = list::split_at(&l.root, 5);
    assert!(b.is_none());
    assert!(Arc::ptr_eq(a.as_ref().unwrap(), l.root.as_ref().unwrap()));
}

#[test]
fn unzip_at_a_position_over_values() {
    let m: GMap<u64, u64> = GMap::from_pairs((1..=9u64).map(|k| (k, k * 10)).collect());
    let (l, hit, r) = unzip(&m.root, &|e: &geometric_tree::Entry<u64, u64>| e.value().cmp(&40));
    assert_eq!(hit.map(|e| e.key), Some(4));
    let keys = |t: &Tree<u64, u64>| {
        let mut cursor = entries(t);
        let mut out = Vec::new();
        while let Some(e) = cursor.next() {
            out.push(e.key);
        }
        out
    };
    assert_eq!(keys(&l), [1, 2, 3]);
    assert_eq!(keys(&r), [5, 6, 7, 8, 9]);
}
