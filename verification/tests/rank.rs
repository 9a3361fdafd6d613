use geometric_tree::rank::{draw, hash, hash_utf16, hashed, hashed_by, random, rank_of_hash, Cyrb, Rank};

/// A small seeded PRNG (mulberry32) so failures reproduce.
struct Prng(u32);

impl Prng {
    fn new(seed: u32) -> Self {
        Prng(seed)
    }
    fn next_f64(&mut self) -> f64 {
        self.0 = self.0.wrapping_add(0x6d2b79f5);
        let mut t = self.0;
        t = (t ^ (t >> 15)).wrapping_mul(1 | t);
        t = (t.wrapping_add((t ^ (t >> 7)).wrapping_mul(61 | t))) ^ t;
        (t ^ (t >> 14)) as f64 / 4294967296.0
    }
}

/// The rank by definition: 1 + the largest r with k^r * (h + 1) <= 2^32.
fn reference(h: u32, k: u128) -> u32 {
    let mut r = 0;
    while k.pow(r + 1) * (h as u128 + 1) <= 1u128 << 32 {
        r += 1;
    }
    r + 1
}

#[test]
fn ranks_match_the_exact_definition_including_at_every_boundary() {
    let mut rand = Prng::new(12);
    for k in [2u32, 3, 8, 10, 16, 1000] {
        let rank = hashed_by::<u32, _>(k, |h: &u32, _: u32| *h);
        let mut hs = vec![0, 1, u32::MAX, u32::MAX - 1];
        let mut r = 1;
        while (k as u128).pow(r) <= 1 << 32 {
            let b = ((1u128 << 32) / (k as u128).pow(r)) as i64;
            hs.extend(
                [b - 2, b - 1, b, b + 1]
                    .iter()
                    .filter(|&&h| h >= 0)
                    .map(|&h| h as u32),
            );
            r += 1;
        }
        for _ in 0..500 {
            hs.push((rand.next_f64() * 4294967296.0) as u32);
        }
        for h in hs {
            assert_eq!(rank.rank(&h, 0), reference(h, k as u128), "k={k} h={h}");
        }
    }
}

#[test]
fn ranks_are_geometric() {
    for k in [2u32, 8] {
        let rank = hashed(k);
        let n = 100_000u64;
        let mut counts = std::collections::HashMap::new();
        for i in 0..n {
            *counts.entry(Rank::<u64>::rank(&rank, &i, 0)).or_insert(0u64) += 1;
        }
        for r in 1..=3u32 {
            let above: u64 = counts
                .iter()
                .filter(|(rr, _)| **rr > r)
                .map(|(_, c)| c)
                .sum();
            let observed = above as f64 / n as f64;
            let expected = (k as f64).powi(-(r as i32));
            assert!(
                (observed - expected).abs() < 0.01,
                "k={k} r={r} {observed} vs {expected}"
            );
        }
    }
}

#[test]
fn seeds_give_independent_hashes() {
    assert_ne!(hash("a", 0), hash("a", 1));
    assert_eq!(hash("a", 0), hash("a", 0));
}

#[test]
fn utf16_hash_matches_the_typescript_package() {
    // Values from `hash` in the npm package geometric-tree.
    assert_eq!(hash_utf16("abc", 0), TS_ABC_0);
    assert_eq!(hash_utf16("abc", 1), TS_ABC_1);
    assert_eq!(hash_utf16("12345", 7), TS_12345_7);
    assert_eq!(hash_utf16("", 0), TS_EMPTY_0);
    let ts = hashed_by::<String, _>(8, |s: &String, seed: u32| hash_utf16(s, seed));
    assert_eq!(ts.rank(&"7919".to_string(), 0), TS_RANK8_7919);
    let ts2 = hashed_by::<String, _>(2, |s: &String, seed: u32| hash_utf16(s, seed));
    assert_eq!(ts2.rank(&"42".to_string(), 0), TS_RANK2_42);
}

const TS_ABC_0: u32 = 4020954904;
const TS_ABC_1: u32 = 583070294;
const TS_12345_7: u32 = 673852440;
const TS_EMPTY_0: u32 = 2173192212;
const TS_RANK8_7919: u32 = 1;
const TS_RANK2_42: u32 = 1;

#[test]
fn rank_of_hash_at_the_edges() {
    // 2^32 / (h + 1) >= k^(r - 1): h = 0 admits every power up to 2^32.
    assert_eq!(rank_of_hash(2, 0), 33);
    assert_eq!(rank_of_hash(2, u32::MAX), 1);
    assert_eq!(rank_of_hash(2, (1u32 << 31) - 1), 2);
    assert_eq!(rank_of_hash(2, 1u32 << 31), 1);
    assert_eq!(rank_of_hash(4, 0), 17);
    assert_eq!(rank_of_hash(10, 0), 10);
    assert_eq!(rank_of_hash(1000, 4294966), 2);
    assert_eq!(rank_of_hash(1000, 4294967), 1);
}

#[test]
fn cyrb_mixes_units_and_hashes_like_hash_utf16() {
    let mut c = Cyrb::new(0);
    for u in "abc".encode_utf16() {
        c.mix(u as u32);
    }
    assert_eq!(c.value(), hash_utf16("abc", 0));
    assert_eq!(Cyrb::new(0).value(), hash_utf16("", 0));
    assert_ne!(Cyrb::new(0).value(), Cyrb::new(1).value());
}

#[test]
fn hashed_ranks_follow_the_hash() {
    let by = hashed_by::<u64, _>(8, |key: &u64, seed: u32| hash(key, seed));
    let plain = hashed(8);
    for key in 0..200u64 {
        assert_eq!(by.rank(&key, 3), Rank::<u64>::rank(&plain, &key, 3));
        assert!(by.rank(&key, 3) >= 1);
    }
    assert_eq!(plain.k(), 8);
}

#[test]
fn random_ranks_are_at_least_one() {
    let r = random(4);
    for i in 0..1000u64 {
        assert!(Rank::<u64>::rank(&r, &i, 0) >= 1);
    }
    let (rank, next) = draw(1, 2);
    assert!(rank >= 1);
    assert_ne!(next, 1);
}

#[test]
fn with_no_base_every_hash_ranks_two() {
    for h in [0u32, 1, 12345, u32::MAX] {
        assert_eq!(rank_of_hash(0, h), 2);
    }
    let r = hashed(0);
    assert_eq!(Rank::<u64>::rank(&r, &7, 0), 2);
}
