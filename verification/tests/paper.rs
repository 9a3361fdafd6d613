use std::cmp::Ordering;
use std::collections::HashMap;
use std::fmt::Display;
use std::sync::Arc;

use geometric_tree::rank::{hash, hashed, hashed_by, Rank};
use geometric_tree::tree::{insert, node, remove, single, size, unzip, zip, ArrayItems, Entry, Items, Node, Tree, Value};

/// A small seeded PRNG (mulberry32) so failures reproduce.
struct Prng(u32);

impl Prng {
    fn new(seed: u32) -> Self {
        Prng(seed)
    }
    fn next_f64(&mut self) -> f64 {
        self.0 = self.0.wrapping_add(0x6d2b79f5);
        let mut t = self.0;
        t = (t ^ (t >> 15)).wrapping_mul(1 | t);
        t = (t.wrapping_add((t ^ (t >> 7)).wrapping_mul(61 | t))) ^ t;
        (t ^ (t >> 14)) as f64 / 4294967296.0
    }
    fn below(&mut self, n: usize) -> usize {
        (self.next_f64() * n as f64) as usize
    }
}

fn shuffle<T: Clone>(xs: &[T], rand: &mut Prng) -> Vec<T> {
    let mut a = xs.to_vec();
    for i in (1..a.len()).rev() {
        let j = rand.below(i + 1);
        a.swap(i, j);
    }
    a
}

/// A string that determines the tree's shape, keys and ranks.
fn fingerprint<K: Display + Clone, V: Clone>(t: &Tree<K, V>) -> String {
    let Some(n) = t else { return ".".into() };
    let items: Vec<String> = n
        .items
        .iter()
        .iter()
        .map(|e| format!("{}{}", fingerprint(&e.left), e.key))
        .collect();
    format!("{}({}){}", n.rank, items.join(","), fingerprint(&n.right))
}

/// Assert the G-tree invariants and return the keys in order.
fn check<K: Ord + Clone, V: Clone>(t: &Tree<K, V>, rank: &dyn Fn(&K) -> u32) -> Vec<K> {
    fn go<K: Ord + Clone, V: Clone>(t: &Tree<K, V>, rank: &dyn Fn(&K) -> u32, above: u32) -> Vec<K> {
        let Some(n) = t else { return vec![] };
        assert!(n.rank < above, "rank does not decrease");
        assert!(n.items.weight() > 0, "empty node");
        let mut keys = Vec::new();
        for e in n.items.iter() {
            keys.extend(go(&e.left, rank, n.rank));
            assert_eq!(rank(&e.key), n.rank, "key in a node of another rank");
            keys.push(e.key.clone());
        }
        keys.extend(go(&n.right, rank, n.rank));
        assert!(keys.windows(2).all(|w| w[0] < w[1]), "keys out of order");
        assert_eq!(n.size, keys.len(), "wrong size");
        keys
    }
    go(t, rank, u32::MAX)
}

/// Every node of a tree, in preorder.
fn nodes<K: Clone, V: Clone>(t: &Tree<K, V>) -> Vec<&Node<K, V>> {
    fn walk<'a, K: Clone, V: Clone>(t: &'a Tree<K, V>, out: &mut Vec<&'a Node<K, V>>) {
        if let Some(n) = t {
            out.push(n);
            for e in n.items.iter() {
                walk(&e.left, out);
            }
            walk(&n.right, out);
        }
    }
    let mut out = Vec::new();
    walk(t, &mut out);
    out
}

/// Height in nodes.
fn height<K: Clone, V: Clone>(t: &Tree<K, V>) -> usize {
    let Some(n) = t else { return 0 };
    let mut h = height(&n.right);
    for e in n.items.iter() {
        h = h.max(height(&e.left));
    }
    h + 1
}

type T = Tree<u64, ()>;
type E = Entry<u64, ()>;

fn at(key: u64) -> impl Fn(&E) -> Ordering {
    move |e| e.key.cmp(&key)
}

fn one(key: u64, rank: &dyn Fn(&u64) -> u32) -> T {
    single(key, (), rank(&key), &ArrayItems::default())
}

fn build(keys: &[u64], rank: &dyn Fn(&u64) -> u32) -> T {
    let mut t = None;
    for &key in keys {
        t = insert(&t, &at(key), &one(key, rank));
    }
    t
}

fn range(n: u64) -> Vec<u64> {
    (0..n).collect()
}

fn mean(xs: &[f64]) -> f64 {
    xs.iter().sum::<f64>() / xs.len() as f64
}

/// Definition 3, literally: partition sorted keys at those of maximal rank.
fn construct(keys: &[u64], rank: &dyn Fn(&u64) -> u32) -> T {
    if keys.is_empty() {
        return None;
    }
    let r = keys.iter().map(rank).max().unwrap();
    let tops: Vec<usize> = (0..keys.len()).filter(|&i| rank(&keys[i]) == r).collect();
    let mut items = ArrayItems::default();
    for (j, &top) in tops.iter().enumerate().rev() {
        let from = if j == 0 { 0 } else { tops[j - 1] + 1 };
        let left = construct(&keys[from..top], rank);
        items = items.unshift(Entry {
            key: keys[top],
            value: Value::Own(()),
            left,
        });
    }
    node(r, items, construct(&keys[tops[tops.len() - 1] + 1..], rank))
}

/// A hashed rank function independent of `hashed(k)`, for repeated experiments.
fn trial(k: u32, i: u32) -> impl Fn(&u64) -> u32 {
    let rank = hashed_by::<u64, _>(k, move |key: &u64, seed: u32| hash(&format!("{i}/{key}"), seed));
    move |key: &u64| rank.rank(key, 0)
}

fn hashed4() -> impl Fn(&u64) -> u32 {
    let rank = hashed(4);
    move |k: &u64| Rank::<u64>::rank(&rank, k, 0)
}

#[test]
fn definition_3_no_run_can_be_extended() {
    let rank = hashed4();
    let keys = shuffle(&range(3000), &mut Prng::new(20));
    let t = build(&keys, &rank);
    let sorted = range(3000);
    // The nearest keys of the node's rank or above, on either side, rank above it.
    let nearest = |mut i: i64, step: i64, r: u32| -> Option<u32> {
        loop {
            i += step;
            if i < 0 || i as usize >= sorted.len() {
                return None;
            }
            let rr = rank(&sorted[i as usize]);
            if rr >= r {
                return Some(rr);
            }
        }
    };
    for n in nodes(&t) {
        let items: Vec<&E> = n.items.iter().iter().collect();
        let first = items[0].key as i64;
        let last = items[items.len() - 1].key as i64;
        if let Some(r) = nearest(first, -1, n.rank) {
            assert!(r > n.rank);
        }
        if let Some(r) = nearest(last, 1, n.rank) {
            assert!(r > n.rank);
        }
    }
}

#[test]
fn definition_3_nodes_per_rank_equal_runs_per_rank() {
    let rank = hashed4();
    let keys = shuffle(&range(3000), &mut Prng::new(20));
    let t = build(&keys, &rank);
    let sorted = range(3000);
    let mut counted: HashMap<u32, usize> = HashMap::new();
    for n in nodes(&t) {
        *counted.entry(n.rank).or_default() += 1;
    }
    for (&r, &count) in &counted {
        let mut runs = 0;
        let mut open = false;
        for key in &sorted {
            let rr = rank(key);
            if rr > r {
                open = false;
            } else if rr == r && !open {
                runs += 1;
                open = true;
            }
        }
        assert_eq!(count, runs, "rank {r}");
    }
}

#[test]
fn definition_3_insertion_yields_the_constructed_tree() {
    let rank = hashed4();
    let keys = shuffle(&range(3000), &mut Prng::new(20));
    let sorted = range(3000);
    let expected = fingerprint(&construct(&sorted, &rank));
    assert_eq!(fingerprint(&build(&keys, &rank)), expected);
    assert_eq!(
        fingerprint(&build(&shuffle(&keys, &mut Prng::new(21)), &rank)),
        expected
    );
    assert_eq!(check(&build(&keys, &rank), &rank), sorted);
}

// Figure 6: mean maximal rank and height of 200 random trees, by k and n.
#[allow(clippy::type_complexity)]
const FIGURE6: [(u32, [(u64, f64, f64); 3]); 4] = [
    (2, [(100, 8.0, 6.7), (1000, 11.3, 9.9), (10000, 14.7, 13.2)]),
    (4, [(100, 4.2, 4.0), (1000, 5.9, 5.6), (10000, 7.5, 7.3)]),
    (16, [(100, 2.4, 2.3), (1000, 3.2, 3.2), (10000, 4.1, 4.1)]),
    (64, [(100, 1.8, 1.8), (1000, 2.2, 2.2), (10000, 3.0, 3.0)]),
];
// Figure 7: mean node size and figure 8: mean node count, at n = 10 000.
const FIGURE7: [(u32, f64); 4] = [(2, 1.998), (4, 3.994), (16, 15.908), (64, 62.68)];
const FIGURE8: [(u32, f64); 4] = [(2, 5002.0), (4, 2504.0), (16, 628.2), (64, 159.16)];

fn forest(k: u32, n: u64) -> Vec<T> {
    (0..3)
        .map(|i| {
            let rank = trial(k, i);
            let keys = shuffle(&range(n), &mut Prng::new(i));
            build(&keys, &rank)
        })
        .collect()
}

#[test]
fn analysis_4_1_1_height_is_at_most_the_root_rank_about_log_k_n() {
    for (k, rows) in FIGURE6 {
        for (n, max_rank, h) in rows {
            let ts = forest(k, n);
            for t in &ts {
                assert!(height(t) as u32 <= t.as_ref().unwrap().rank);
            }
            // E(M_T) <= ceil(log_k n) + k, with high probability.
            let bound = ((n as f64).ln() / (k as f64).ln()).ceil() + k as f64;
            let ranks: Vec<f64> = ts
                .iter()
                .map(|t| t.as_ref().unwrap().rank as f64)
                .collect();
            assert!(mean(&ranks) <= bound + 1.0);
            let slack = if k == 2 { 3.0 } else { 1.5 };
            assert!(
                (mean(&ranks) - max_rank).abs() <= slack,
                "k={k} n={n} ranks {ranks:?}"
            );
            let heights: Vec<f64> = ts.iter().map(|t| height(t) as f64).collect();
            assert!(
                (mean(&heights) - h).abs() <= slack,
                "k={k} n={n} heights {heights:?}"
            );
        }
    }
}

#[test]
fn analysis_4_1_2_node_sizes_are_geometric_with_mean_k() {
    for (k, figure7) in FIGURE7 {
        let forest = forest(k, 10000);
        let sizes: Vec<f64> = forest
            .iter()
            .flat_map(|t| nodes(t).into_iter().map(|n| n.items.iter().len() as f64))
            .collect();
        assert!(
            (mean(&sizes) - figure7).abs() <= 0.1 * k as f64,
            "k={k} mean {}",
            mean(&sizes)
        );
        // P(|g| >= s) = (1 - 1/k)^(s - 1): the paper's bound with a corrected exponent.
        for c in [1, 2, 3] {
            let s = (c * k) as f64;
            let observed = sizes.iter().filter(|&&x| x >= s).count() as f64 / sizes.len() as f64;
            let expected = (1.0 - 1.0 / k as f64).powf(s - 1.0);
            let sd = (expected * (1.0 - expected) / sizes.len() as f64).sqrt();
            assert!(
                (observed - expected).abs() <= 4.0 * sd + 1e-3,
                "k={k} s={s} {observed} vs {expected}"
            );
        }
    }
}

#[test]
fn analysis_4_1_3_the_number_of_nodes_is_about_n_over_k() {
    for (k, figure8) in FIGURE8 {
        let counts: Vec<f64> = forest(k, 10000)
            .iter()
            .map(|t| nodes(t).len() as f64)
            .collect();
        let expected = 10000.0 / k as f64 + 1.0;
        for &c in &counts {
            assert!(
                (c - expected).abs() <= 4.0 * expected.sqrt(),
                "k={k} count {c}"
            );
        }
        assert!((mean(&counts) - figure8).abs() <= 3.0 * expected.sqrt());
    }
}

#[test]
fn ranks_from_the_default_hash_are_geometric_by_chi_square() {
    let n = 100_000u64;
    for k in [2u32, 3, 8] {
        let rank = hashed(k);
        let buckets = 6;
        let mut counts = vec![0f64; buckets + 1];
        for i in 0..n {
            counts[(Rank::<u64>::rank(&rank, &i, 0) as usize).min(buckets + 1) - 1] += 1.0;
        }
        let mut chi2 = 0.0;
        for r in 1..=buckets + 1 {
            let kf = k as f64;
            let p = if r <= buckets {
                (1.0 - 1.0 / kf) / kf.powi(r as i32 - 1)
            } else {
                1.0 / kf.powi(buckets as i32)
            };
            chi2 += (counts[r - 1] - n as f64 * p).powi(2) / (n as f64 * p);
        }
        assert!(chi2 < 22.5, "k={k} chi2={chi2}"); // 99.9th percentile, 6 degrees of freedom
    }
}

#[test]
fn algorithms_unzip_and_zip_laws() {
    let rank = hashed4();
    let keys = shuffle(&range(400), &mut Prng::new(22));
    let t = build(&keys, &rank);
    let mut rand = Prng::new(23);
    // Positions between keys, expressed as an ordering on entries.
    let gap = |g: f64| move |e: &E| (e.key as f64).partial_cmp(&g).unwrap();
    for _ in 0..100 {
        let key = rand.below(400) as u64;
        let (l, hit, r) = unzip(&t, &at(key));
        assert_eq!(hit.as_ref().map(|e| e.key), Some(key));
        assert_eq!(
            fingerprint(&zip(&zip(&l, &one(key, &rank)), &r)),
            fingerprint(&t)
        );
        let without: Vec<u64> = keys.iter().copied().filter(|&x| x != key).collect();
        assert_eq!(
            fingerprint(&zip(&l, &r)),
            fingerprint(&build(&without, &rank))
        );
        assert_eq!(
            fingerprint(&remove(&t, &at(key))),
            fingerprint(&zip(&l, &r))
        );
        let g = key as f64 + 0.5;
        let (gl, none, gr) = unzip(&t, &gap(g));
        assert!(none.is_none());
        assert_eq!(fingerprint(&zip(&gl, &gr)), fingerprint(&t));
        let (a, _, bc) = unzip(&t, &gap(g));
        let (b, _, c) = unzip(&bc, &gap(g + rand.below(100) as f64));
        assert_eq!(fingerprint(&zip(&zip(&a, &b), &c)), fingerprint(&t));
        assert_eq!(fingerprint(&zip(&a, &zip(&b, &c))), fingerprint(&t));
    }
    assert!(Arc::ptr_eq(
        zip(&t, &None).as_ref().unwrap(),
        t.as_ref().unwrap()
    ));
    assert!(Arc::ptr_eq(
        zip(&None, &t).as_ref().unwrap(),
        t.as_ref().unwrap()
    ));
    assert_eq!(
        fingerprint(&insert(&t, &at(7), &one(7, &rank))),
        fingerprint(&t)
    );
}

#[test]
fn algorithms_sorted_zip_append_builds_the_same_tree_as_inserting() {
    let rank = hashed4();
    let keys = shuffle(&range(400), &mut Prng::new(22));
    let mut appended = None;
    for key in range(400) {
        appended = zip(&appended, &one(key, &rank));
    }
    assert_eq!(fingerprint(&appended), fingerprint(&build(&keys, &rank)));
}

#[test]
fn algorithms_an_update_shares_all_but_a_path_of_nodes() {
    let n = 5000;
    let rank = hashed(8);
    let rank = |k: &u64| Rank::<u64>::rank(&rank, k, 0);
    let old = build(&shuffle(&range(n), &mut Prng::new(24)), &rank);
    let before = fingerprint(&old);
    let shared: Vec<&Node<u64, ()>> = nodes(&old);
    for key in [n + 1, 100_000] {
        let updated = insert(&old, &at(key), &one(key, &rank));
        let fresh = nodes(&updated)
            .into_iter()
            .filter(|n| !shared.iter().any(|s| std::ptr::eq(*s, *n)))
            .count();
        assert!(fresh <= 2 * height(&updated) + 2, "{fresh} fresh nodes");
        assert!(fresh < shared.len() / 20);
        assert_eq!(size(&updated), n as usize + 1);
    }
    assert_eq!(fingerprint(&old), before);
}

#[test]
fn algorithms_work_per_operation_grows_like_log_n() {
    let rank = hashed(8);
    let rank = |k: &u64| Rank::<u64>::rank(&rank, k, 0);
    let cost = |n: u64| {
        let t = build(&shuffle(&range(n), &mut Prng::new(n as u32)), &rank);
        let compares = std::cell::Cell::new(0usize);
        for i in 0..200u64 {
            let g = i as f64 + 0.5;
            let counting = |e: &E| {
                compares.set(compares.get() + 1);
                (e.key as f64).partial_cmp(&g).unwrap()
            };
            insert(&t, &counting, &one(i, &rank));
        }
        compares.get() as f64 / 200.0
    };
    let (small, large) = (cost(1000), cost(100_000));
    assert!(large / small < 4.0, "{small} vs {large}"); // log growth; linear would be 100
}
