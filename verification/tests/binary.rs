use std::cmp::Ordering;

use geometric_tree::binary;
use geometric_tree::rank::{hashed, Rank};
use geometric_tree::tree::{self, ArrayItems, Items};

/// A small seeded PRNG (mulberry32) so failures reproduce.
struct Prng(u32);

impl Prng {
    fn new(seed: u32) -> Self {
        Prng(seed)
    }
    fn next_f64(&mut self) -> f64 {
        self.0 = self.0.wrapping_add(0x6d2b79f5);
        let mut t = self.0;
        t = (t ^ (t >> 15)).wrapping_mul(1 | t);
        t = (t.wrapping_add((t ^ (t >> 7)).wrapping_mul(61 | t))) ^ t;
        (t ^ (t >> 14)) as f64 / 4294967296.0
    }
    fn below(&mut self, n: usize) -> usize {
        (self.next_f64() * n as f64) as usize
    }
}

fn shuffle<T: Clone>(xs: &[T], rand: &mut Prng) -> Vec<T> {
    let mut a = xs.to_vec();
    for i in (1..a.len()).rev() {
        let j = rand.below(i + 1);
        a.swap(i, j);
    }
    a
}

/// Primes with hand-picked ranks.
const FIXTURE: [(u64, u32); 20] = [
    (2, 1),
    (3, 2),
    (5, 1),
    (7, 3),
    (11, 1),
    (13, 2),
    (17, 1),
    (19, 1),
    (23, 2),
    (29, 2),
    (31, 3),
    (37, 1),
    (41, 2),
    (43, 2),
    (47, 1),
    (53, 3),
    (59, 1),
    (61, 2),
    (67, 3),
    (71, 2),
];

fn primes() -> Vec<u64> {
    FIXTURE.iter().map(|&(k, _)| k).collect()
}

fn fixed(key: &u64) -> u32 {
    FIXTURE
        .iter()
        .find(|&&(k, _)| k == *key)
        .expect("fixture key")
        .1
}

type B = binary::Tree<u64, ()>;

fn at(key: u64) -> impl Fn(&binary::Node<u64, ()>) -> Ordering {
    move |n| n.key.cmp(&key)
}

fn build(keys: &[u64], rank: &dyn Fn(&u64) -> u32) -> B {
    let mut t = None;
    for &key in keys {
        t = binary::insert(&t, &at(key), &binary::single(key, (), rank(&key)));
    }
    t
}

/// Keys as nested `key(left,right)` for readable structure checks.
fn shape(t: &B) -> String {
    match t {
        None => ".".into(),
        Some(n) => format!("{}({},{})", n.key, shape(&n.left), shape(&n.right)),
    }
}

/// Check zip-tree invariants and return the keys in order.
fn check_binary(t: &B, rank: &dyn Fn(&u64) -> u32, max_left: u32, max_right: u32) -> Vec<u64> {
    let Some(n) = t else { return vec![] };
    assert_eq!(n.rank, rank(&n.key));
    assert!(n.rank < max_left && n.rank <= max_right);
    let mut keys = check_binary(&n.left, rank, n.rank, n.rank);
    keys.push(n.key);
    keys.extend(check_binary(&n.right, rank, u32::MAX, n.rank));
    assert!(keys.windows(2).all(|w| w[0] < w[1]));
    assert_eq!(n.size, keys.len());
    keys
}

/// Unfold a k = 2 G-tree into the binary zip tree it represents.
fn unfold(t: &tree::Tree<u64, ()>) -> B {
    let Some(n) = t else { return None };
    let mut right = unfold(&n.right);
    let items: Vec<_> = n.items.iter().iter().collect();
    for e in items.into_iter().rev() {
        right = binary::node(e.key, (), n.rank, unfold(&e.left), right);
    }
    right
}

#[test]
fn matches_the_figure_from_the_paper() {
    let t = build(&primes(), &fixed);
    assert_eq!(check_binary(&t, &fixed, u32::MAX, u32::MAX), primes());
    assert_eq!(
        shape(&t),
        "7(3(2(.,.),5(.,.)),31(13(11(.,.),23(17(.,19(.,.)),29(.,.))),53(41(37(.,.),43(.,47(.,.))),67(61(59(.,.),.),71(.,.)))))"
    );
}

#[test]
fn binary_insertion_order_does_not_matter() {
    let mut rand = Prng::new(10);
    let expected = shape(&build(&primes(), &fixed));
    for _ in 0..50 {
        assert_eq!(
            shape(&build(&shuffle(&primes(), &mut rand), &fixed)),
            expected
        );
    }
}

#[test]
fn unzip_zip_remove_and_find() {
    let t = build(&primes(), &fixed);
    let (l, hit, r) = binary::unzip(&t, &at(31));
    assert_eq!(hit.map(|n| n.key), Some(31));
    let before: Vec<u64> = binary::nodes(&l).into_iter().map(|n| n.key).collect();
    assert_eq!(
        before,
        primes().into_iter().filter(|&p| p < 31).collect::<Vec<_>>()
    );
    assert_eq!(
        shape(&binary::zip(
            &binary::zip(&l, &binary::single(31, (), 3)),
            &r
        )),
        shape(&t)
    );
    let without: Vec<u64> = primes().into_iter().filter(|&p| p != 31).collect();
    assert_eq!(
        shape(&binary::remove(&t, &at(31))),
        shape(&build(&without, &fixed))
    );
    assert_eq!(binary::find(&t, &at(30)).map(|n| n.key), Some(31));
    assert!(binary::find(&t, &at(72)).is_none());
}

#[test]
fn is_the_g_tree_with_k_2_runs_of_equal_rank_folded_into_one_node() {
    let hashed2 = hashed(2);
    let many: Vec<u64> = shuffle(&(0..2000).collect::<Vec<_>>(), &mut Prng::new(11));
    let by_hash = |k: &u64| Rank::<u64>::rank(&hashed2, k, 0);
    for (keys, rank) in [
        (primes(), &fixed as &dyn Fn(&u64) -> u32),
        (many, &by_hash as &dyn Fn(&u64) -> u32),
    ] {
        let mut g = None;
        for &key in &keys {
            let one = tree::single(key, (), rank(&key), &ArrayItems::default());
            g = tree::insert(
                &g,
                &move |e: &tree::Entry<u64, ()>| e.key.cmp(&key),
                &one,
            );
        }
        assert_eq!(shape(&unfold(&g)), shape(&build(&keys, rank)));
    }
}

#[test]
fn binary_edges_and_sizes() {
    let t: B = None;
    assert_eq!(binary::size(&t), 0);
    assert!(binary::find(&t, &at(3)).is_none());
    assert!(binary::nodes(&t).is_empty());
    let (l, hit, r) = binary::unzip(&t, &at(3));
    assert!(l.is_none() && hit.is_none() && r.is_none());
    let s = binary::single(4, (), 2);
    assert_eq!(binary::size(&s), 1);
    let n = binary::node(9, (), 5, s.clone(), None);
    assert_eq!(binary::size(&n), 2);
    assert_eq!(n.as_ref().unwrap().rank, 5);
    let t = build(&primes(), &fixed);
    assert_eq!(binary::size(&t), 20);
    assert_eq!(
        binary::nodes(&t).into_iter().map(|n| n.key).collect::<Vec<_>>(),
        primes()
    );
    assert_eq!(shape(&binary::remove(&t, &at(30))), shape(&t));
    assert_eq!(shape(&binary::insert(&t, &at(31), &binary::single(31, (), 3))), shape(&t));
}
