//! Rank functions. Ranks are geometric random variables with
//! P(rank = r) = (1 - 1/k) / k^(r - 1), so G-nodes hold about k keys and the
//! tree has about n/k nodes and log_k(n) height.

use std::hash::{BuildHasher, Hash, Hasher};
use std::sync::atomic::AtomicU64;
use vstd::prelude::*;

verus! {

// ---------------------------------------------------------------------------
// The hash
// ---------------------------------------------------------------------------

/// A small, fast, well-mixed string hash (cyrb53's mixing, folded to 32
/// bits), fed unit by unit. Deterministic on every platform. Not
/// cryptographic: it makes trees history independent, but whoever can choose
/// keys can also choose their ranks.
pub struct Cyrb {
    h1: u32,
    h2: u32,
}

/// The state of the hash before any input.
pub open spec fn cyrb_start() -> (u32, u32) {
    (0xdeadbeef, 0x41c6ce57)
}

/// The state after mixing one unit of input into `h`.
pub open spec fn cyrb_mix(h: (u32, u32), c: u32) -> (u32, u32) {
    ((h.0 ^ c).wrapping_mul(2654435761), (h.1 ^ c).wrapping_mul(1597334677))
}

/// The 32-bit hash value of a state.
pub open spec fn cyrb_value(h: (u32, u32)) -> u32 {
    let (h1, h2) = h;
    let a = (h1 ^ (h1 >> 16)).wrapping_mul(2246822507) ^ (h2 ^ (h2 >> 13)).wrapping_mul(3266489909);
    let b = (h2 ^ (h2 >> 16)).wrapping_mul(2246822507) ^ (a ^ (a >> 13)).wrapping_mul(3266489909);
    a ^ b
}

/// The state after mixing the units of `units`, in order, into `h`.
pub open spec fn cyrb_feed(h: (u32, u32), units: Seq<u32>) -> (u32, u32)
    decreases units.len(),
{
    if units.len() == 0 {
        h
    } else {
        cyrb_feed(cyrb_mix(h, units[0]), units.drop_first())
    }
}

/// The hash of `units` under `seed`: the seed is mixed in as a leading unit.
pub open spec fn cyrb_hash(seed: u32, units: Seq<u32>) -> u32 {
    cyrb_value(cyrb_feed(cyrb_start(), seq![seed] + units))
}

/// Mixing loses nothing of the unit: from the state before and after, the
/// whole 32-bit unit comes back (each half of the state is multiplied by an
/// odd constant, whose inverse modulo 2^32 undoes it). So two different units
/// always give different states, in both halves.
pub proof fn lemma_mix_keeps_the_unit(h: (u32, u32), c: u32)
    ensures
        cyrb_mix(h, c).0.wrapping_mul(244002641) ^ h.0 == c,
        cyrb_mix(h, c).1.wrapping_mul(851723965) ^ h.1 == c,
        forall|d: u32| d != c ==> #[trigger] cyrb_mix(h, d).0 != cyrb_mix(h, c).0 && cyrb_mix(h, d).1 != cyrb_mix(h, c).1,
{
    let (a, b) = h;
    assert(forall|x: u32, y: u32| #[trigger] (x ^ y).wrapping_mul(2654435761).wrapping_mul(244002641) ^ x == y)
        by (bit_vector);
    assert(forall|x: u32, y: u32| #[trigger] (x ^ y).wrapping_mul(1597334677).wrapping_mul(851723965) ^ x == y)
        by (bit_vector);
    assert(cyrb_mix(h, c).0.wrapping_mul(244002641) ^ a == c);
    assert(cyrb_mix(h, c).1.wrapping_mul(851723965) ^ b == c);
    assert forall|d: u32| d != c implies #[trigger] cyrb_mix(h, d).0 != cyrb_mix(h, c).0 && cyrb_mix(h, d).1
        != cyrb_mix(h, c).1 by {
        assert(cyrb_mix(h, d).0.wrapping_mul(244002641) ^ a == d);
        assert(cyrb_mix(h, d).1.wrapping_mul(851723965) ^ b == d);
    }
}

/// Feeding a sequence and then one more unit.
proof fn lemma_feed_push(h: (u32, u32), units: Seq<u32>, c: u32)
    ensures
        cyrb_feed(h, units.push(c)) == cyrb_mix(cyrb_feed(h, units), c),
    decreases units.len(),
{
    if units.len() > 0 {
        assert(units.push(c).drop_first() =~= units.drop_first().push(c));
        lemma_feed_push(cyrb_mix(h, units[0]), units.drop_first(), c);
    } else {
        assert(units.push(c).drop_first() =~= Seq::<u32>::empty());
        assert(units.push(c)[0] == c);
        assert(cyrb_feed(cyrb_mix(h, c), Seq::<u32>::empty()) == cyrb_mix(h, c));
        assert(cyrb_feed(h, units) == h);
    }
}

impl Cyrb {
    /// The state of the hash.
    pub closed spec fn state(&self) -> (u32, u32) {
        (self.h1, self.h2)
    }

    /// The seed is mixed in as a leading input unit, so different seeds give
    /// unrelated hashes rather than a permutation of the same values.
    pub fn new(seed: u32) -> (r: Self)
        ensures
            r.state() == cyrb_feed(cyrb_start(), seq![seed]),
    {
        let mut h = Cyrb { h1: 0xdeadbeef, h2: 0x41c6ce57 };
        h.mix(seed);
        assert(seq![seed].drop_first() =~= Seq::<u32>::empty());
        assert(cyrb_feed(cyrb_mix(cyrb_start(), seed), Seq::<u32>::empty()) == cyrb_mix(cyrb_start(), seed));
        h
    }

    /// Mix one unit of input (a byte, or a UTF-16 code unit).
    pub fn mix(&mut self, c: u32)
        ensures
            final(self).state() == cyrb_mix(old(self).state(), c),
    {
        self.h1 = (self.h1 ^ c).wrapping_mul(2654435761);
        self.h2 = (self.h2 ^ c).wrapping_mul(1597334677);
    }

    /// The 32-bit hash of what was mixed in.
    pub fn value(&self) -> (r: u32)
        ensures
            r == cyrb_value(self.state()),
    {
        let (h1, h2) = (self.h1, self.h2);
        let h1 = (h1 ^ (h1 >> 16)).wrapping_mul(2246822507) ^ (h2 ^ (h2 >> 13)).wrapping_mul(3266489909);
        let h2 = (h2 ^ (h2 >> 16)).wrapping_mul(2246822507) ^ (h1 ^ (h1 >> 13)).wrapping_mul(3266489909);
        h1 ^ h2
    }

    /// Mix the units of `units`, in order.
    fn mix_all(&mut self, units: &[u32])
        ensures
            final(self).state() == cyrb_feed(old(self).state(), units@),
    {
        let ghost start = self.state();
        let mut i: usize = 0;
        assert(units@.take(0) =~= Seq::<u32>::empty());
        while i < units.len()
            invariant
                i <= units@.len(),
                self.state() == cyrb_feed(start, units@.take(i as int)),
            decreases units@.len() - i,
        {
            proof {
                assert(units@.take(i as int + 1) =~= units@.take(i as int).push(units@[i as int]));
                lemma_feed_push(start, units@.take(i as int), units@[i as int]);
            }
            self.mix(units[i]);
            i = i + 1;
        }
        assert(units@.take(i as int) =~= units@);
    }
}

/// The bytes of `bytes` as input units.
pub open spec fn byte_units(bytes: Seq<u8>) -> Seq<u32> {
    bytes.map_values(|b: u8| b as u32)
}

impl Hasher for Cyrb {
    fn write(&mut self, bytes: &[u8])
        ensures
            final(self).state() == cyrb_feed(old(self).state(), byte_units(bytes@)),
    {
        let ghost start = self.state();
        let mut i: usize = 0;
        assert(byte_units(bytes@.take(0)) =~= Seq::<u32>::empty());
        while i < bytes.len()
            invariant
                i <= bytes@.len(),
                self.state() == cyrb_feed(start, byte_units(bytes@.take(i as int))),
            decreases bytes@.len() - i,
        {
            proof {
                assert(byte_units(bytes@.take(i as int + 1)) =~= byte_units(bytes@.take(i as int)).push(
                    bytes@[i as int] as u32));
                lemma_feed_push(start, byte_units(bytes@.take(i as int)), bytes@[i as int] as u32);
            }
            self.mix(bytes[i] as u32);
            i = i + 1;
        }
        assert(bytes@.take(i as int) =~= bytes@);
    }

    fn finish(&self) -> (r: u64)
        ensures
            r == cyrb_value(self.state()),
    {
        self.value() as u64
    }
}

/// Feeds `key` to `h` by its `Hash` implementation.
///
/// Calls `<K as Hash>::hash`. Every `Hash` implementation feeds a hasher
/// only through `Hasher` methods, and those that `Cyrb` does not define write
/// their bytes through `write`; the contract therefore claims only that the
/// state afterwards is that of some sequence of bytes fed in. Which bytes
/// depends on `K`'s implementation and is left unsaid.
#[verifier::external_body]
fn feed_key<K: Hash + ?Sized>(key: &K, h: &mut Cyrb)
    ensures
        exists|bytes: Seq<u8>| final(h).state() == cyrb_feed(old(h).state(), #[trigger] byte_units(bytes)),
{
    key.hash(h)
}

/// Hash any [`Hash`] key to a 32-bit integer with [`Cyrb`]: the hash of the
/// bytes that the key's `Hash` implementation writes, under `seed`.
pub fn hash<K: Hash + ?Sized>(key: &K, seed: u32) -> (r: u32)
    ensures
        exists|bytes: Seq<u8>| r == cyrb_hash(seed, #[trigger] byte_units(bytes)),
{
    let mut h = Cyrb::new(seed);
    feed_key(key, &mut h);
    let r = h.value();
    proof {
        let bytes = choose|bytes: Seq<u8>| h.state() == cyrb_feed(cyrb_feed(cyrb_start(), seq![seed]), #[trigger] byte_units(bytes));
        lemma_feed_concat(cyrb_start(), seq![seed], byte_units(bytes));
    }
    r
}

/// Feeding two sequences one after the other is feeding their concatenation.
proof fn lemma_feed_concat(h: (u32, u32), a: Seq<u32>, b: Seq<u32>)
    ensures
        cyrb_feed(cyrb_feed(h, a), b) == cyrb_feed(h, a + b),
    decreases a.len(),
{
    if a.len() == 0 {
        assert(a + b =~= b);
    } else {
        assert((a + b).drop_first() =~= a.drop_first() + b);
        lemma_feed_concat(cyrb_mix(h, a[0]), a.drop_first(), b);
    }
}

/// The UTF-16 encoding of a string, unit by unit: characters below 0x10000
/// are one unit, the others a surrogate pair.
pub open spec fn utf16_of(s: Seq<char>) -> Seq<u16>
    decreases s.len(),
{
    if s.len() == 0 {
        Seq::empty()
    } else {
        let c = s[0] as u32;
        let head = if c < 0x10000 {
            seq![c as u16]
        } else {
            seq![(0xD800 + ((c - 0x10000) / 0x400)) as u16, (0xDC00 + ((c - 0x10000) % 0x400)) as u16]
        };
        head + utf16_of(s.drop_first())
    }
}

/// The UTF-16 code units of `s`.
///
/// Calls `str::encode_utf16`, which the standard library documents as
/// returning the string encoded as UTF-16: one unit for a character below
/// U+10000, a surrogate pair for the others.
#[verifier::external_body]
fn encode_utf16(s: &str) -> (r: Vec<u32>)
    ensures
        r@ == utf16_of(s@).map_values(|u: u16| u as u32),
{
    s.encode_utf16().map(|u| u as u32).collect()
}

/// Hash a string by its UTF-16 code units: the same function as the default
/// hash of the TypeScript package, so both build identical trees for keys
/// with the same string form.
pub fn hash_utf16(s: &str, seed: u32) -> (r: u32)
    ensures
        r == cyrb_hash(seed, utf16_of(s@).map_values(|u: u16| u as u32)),
{
    let mut h = Cyrb::new(seed);
    let units = encode_utf16(s);
    h.mix_all(units.as_slice());
    proof {
        lemma_feed_concat(cyrb_start(), seq![seed], units@);
    }
    h.value()
}


// ---------------------------------------------------------------------------
// Ranks from hashes
// ---------------------------------------------------------------------------

/// The number of hash values: hashes are 32-bit integers.
pub open spec fn hash_space() -> nat {
    0x1_0000_0000
}

/// The largest `r` with `k^r * v <= 2^32`, for `v >= 1` and `k >= 2`.
pub open spec fn powers_within(k: nat, v: nat) -> nat
    decreases hash_space() - v,
{
    if k < 2 || v < 1 || k * v > hash_space() {
        0
    } else {
        proof {
            assert(k * v > v) by (nonlinear_arith)
                requires
                    k >= 2,
                    v >= 1,
            ;
        }
        1 + powers_within(k, k * v)
    }
}

/// The rank of hash `h` with about `k` keys per node: 1 + the largest `r`
/// with `k^r * (h + 1) <= 2^32`, the number of leading zero digits of the
/// hash in base `k` (the paper's section 3.2), plus one.
pub open spec fn rank_of(k: nat, h: nat) -> nat {
    1 + powers_within(k, h + 1)
}

/// Powers of two.
pub open spec fn pow2n(n: nat) -> nat
    decreases n,
{
    if n == 0 {
        1
    } else {
        2 * pow2n((n - 1) as nat)
    }
}

/// Each step of `powers_within` at least doubles `v`, which stays within the
/// hash space.
proof fn lemma_powers_pow2(k: nat, v: nat)
    requires
        k >= 2,
        1 <= v <= hash_space(),
    ensures
        v * pow2n(powers_within(k, v)) <= hash_space(),
    decreases hash_space() - v,
{
    if k * v <= hash_space() {
        assert(k * v > v) by (nonlinear_arith)
            requires
                k >= 2,
                v >= 1,
        ;
        lemma_powers_pow2(k, k * v);
        let p = pow2n(powers_within(k, k * v));
        assert(v * (2 * p) <= (k * v) * p) by (nonlinear_arith)
            requires
                k >= 2,
                v >= 1,
                p >= 0,
        ;
        assert(powers_within(k, v) == 1 + powers_within(k, k * v));
        assert(pow2n(powers_within(k, v)) == 2 * p);
        assert(v * pow2n(powers_within(k, v)) == v * (2 * p));
    } else {
        assert(powers_within(k, v) == 0);
        assert(pow2n(0) == 1);
        assert(v * 1 == v);
    }
}

/// Thirty-three and more doublings exceed the hash space.
proof fn lemma_pow2n_large(n: nat)
    requires
        n >= 33,
    ensures
        pow2n(n) > hash_space(),
    decreases n,
{
    if n > 33 {
        lemma_pow2n_large((n - 1) as nat);
    } else {
        reveal_with_fuel(pow2n, 34);
        assert(pow2n(33) == 0x2_0000_0000);
    }
}

/// Ranks of 32-bit hashes are at most 33.
proof fn lemma_rank_bound(k: nat, h: nat)
    requires
        k >= 2,
        h < hash_space(),
    ensures
        1 <= rank_of(k, h) <= 33,
{
    lemma_powers_pow2(k, h + 1);
    if powers_within(k, h + 1) >= 33 {
        lemma_pow2n_large(powers_within(k, h + 1));
        assert((h + 1) * pow2n(powers_within(k, h + 1)) >= pow2n(powers_within(k, h + 1))) by (nonlinear_arith)
            requires
                h + 1 >= 1,
        ;
    }
}

/// The rank [`rank_of_hash`] gives: [`rank_of`] for `k` of 2 or more; with
/// `k` of 0 there is no base to count digits in, and every hash ranks 2.
pub open spec fn hash_rank(k: nat, h: nat) -> nat {
    if k == 0 {
        2
    } else {
        rank_of(k, h)
    }
}

/// The rank of hash `h` with about `k` keys per node, by inverse transform:
/// the hash is a uniform u in (0, 1], and the rank is 1 + floor(log_k(1/u)).
/// Computed exactly, with integers.
pub fn rank_of_hash(k: u32, h: u32) -> (r: u32)
    requires
        k != 1,
    ensures
        r == hash_rank(k as nat, h as nat),
{
    if k == 0 {
        return 2;
    }
    proof {
        lemma_rank_bound(k as nat, h as nat);
    }
    let kk = k as u64;
    let mut v: u64 = h as u64 + 1;
    let mut r: u32 = 1;
    loop
        invariant
            kk == k,
            k >= 2,
            1 <= v <= 0x1_0000_0000,
            1 <= r,
            r + powers_within(k as nat, v as nat) == rank_of(k as nat, h as nat),
            rank_of(k as nat, h as nat) <= 33,
        decreases 0x1_0000_0000 - v,
    {
        proof {
            assert(kk * v <= 0xFFFF_FFFF * 0x1_0000_0000) by (nonlinear_arith)
                requires
                    kk <= 0xFFFF_FFFF,
                    v <= 0x1_0000_0000,
            ;
            assert(kk * v > v) by (nonlinear_arith)
                requires
                    kk >= 2,
                    v >= 1,
            ;
        }
        let next = kk * v;
        if next > 0x1_0000_0000 {
            return r;
        }
        v = next;
        r = r + 1;
    }
}


// ---------------------------------------------------------------------------
// Rank functions
// ---------------------------------------------------------------------------

/// Assigns a rank to a key. The seed selects an independent rank function.
pub trait Rank<K> {
    /// Whether `rank` may be called on this key and seed.
    spec fn accepts(&self, key: &K, seed: u32) -> bool;

    /// Whether `r` is a rank that `rank` may give `key` under `seed`.
    spec fn gives(&self, key: &K, seed: u32, r: u32) -> bool;

    /// The rank of `key` under `seed`.
    fn rank(&self, key: &K, seed: u32) -> (r: u32)
        requires
            self.accepts(key, seed),
        ensures
            self.gives(key, seed, r);
}

/// Hashed ranks with about `k` keys per node, for any [`Hash`] key.
pub struct Hashed {
    k: u32,
}

impl Hashed {
    /// The expected number of keys per node.
    pub closed spec fn k_view(&self) -> u32 {
        self.k
    }

    pub fn k(&self) -> (r: u32)
        ensures
            r == self.k_view(),
    {
        self.k
    }
}

impl<K: Hash> Rank<K> for Hashed {
    open spec fn accepts(&self, key: &K, seed: u32) -> bool {
        self.k_view() != 1
    }

    /// The rank of the hash of some sequence of bytes: those that the key's
    /// `Hash` implementation writes.
    open spec fn gives(&self, key: &K, seed: u32, r: u32) -> bool {
        exists|bytes: Seq<u8>| r == hash_rank(self.k_view() as nat, cyrb_hash(seed, #[trigger] byte_units(bytes)) as nat)
    }

    /// The rank of the key's [`hash`] under `seed`.
    fn rank(&self, key: &K, seed: u32) -> (r: u32) {
        let h = hash(key, seed);
        rank_of_hash(self.k, h)
    }
}

/// Deterministic ranks by inverse transform of the hash (see
/// [`rank_of_hash`]). Trees built with these depend only on their contents
/// (history independence), so equal sets have equal trees.
pub fn hashed(k: u32) -> (r: Hashed)
    requires
        k != 1,
    ensures
        r.k_view() == k,
{
    Hashed { k }
}

/// Ranks by inverse transform of the given hash function.
pub struct HashedBy<K, F> {
    k: u32,
    hash: F,
    key: std::marker::PhantomData<K>,
}

impl<K, F> HashedBy<K, F> {
    /// The expected number of keys per node.
    pub closed spec fn k_view(&self) -> u32 {
        self.k
    }

    /// The hash function.
    pub closed spec fn hash_view(&self) -> F {
        self.hash
    }
}

impl<K, F: Fn(&K, u32) -> u32> HashedBy<K, F> {
    /// The rank function may be called on a key and seed that the hash
    /// function accepts.
    pub proof fn lemma_accepts(&self, key: &K, seed: u32)
        requires
            self.k_view() != 1,
            call_requires(self.hash_view(), (key, seed)),
        ensures
            <Self as Rank<K>>::accepts(self, key, seed),
    {
    }
}

impl<K, F: Fn(&K, u32) -> u32> Rank<K> for HashedBy<K, F> {
    open spec fn accepts(&self, key: &K, seed: u32) -> bool {
        self.k_view() != 1 && call_requires(self.hash_view(), (key, seed))
    }

    /// The rank of a hash that the hash function may return for the key.
    open spec fn gives(&self, key: &K, seed: u32, r: u32) -> bool {
        exists|h: u32| call_ensures(self.hash_view(), (key, seed), h) && r == hash_rank(self.k_view() as nat, h as nat)
    }

    /// The rank of the hash of the key under `seed`.
    fn rank(&self, key: &K, seed: u32) -> (r: u32) {
        let h = (self.hash)(key, seed);
        rank_of_hash(self.k, h)
    }
}

/// [`rank_of_hash`] of the given hash, with about `k` keys per node.
pub fn hashed_by<K, F: Fn(&K, u32) -> u32>(k: u32, hash: F) -> (r: HashedBy<K, F>)
    requires
        k != 1,
    ensures
        r.k_view() == k,
        r.hash_view() == hash,
{
    HashedBy { k, hash, key: std::marker::PhantomData }
}

/// One step of the xorshift64 generator.
pub open spec fn xorshift(x: u64) -> u64 {
    let a = x ^ (x >> 12u64);
    let b = a ^ (a << 25u64);
    b ^ (b >> 27u64)
}

/// The Bernoulli trial of xorshift64* output `x`: whether the rank stops
/// growing (probability 1 - 1/k).
pub open spec fn stops(x: u64, k: u32) -> bool {
    ((x.wrapping_mul(0x2545F4914F6CDD1D) >> 32u64) as u32) % k != 0
}

/// The rank drawn from generator state `x`, starting at `rank`, and the state
/// after it: one trial per step, until a trial stops (or the rank reaches the
/// largest `u32`).
pub open spec fn geometric(x: u64, k: u32, rank: u32) -> (u32, u64)
    decreases u32::MAX - rank,
{
    let y = xorshift(x);
    if stops(y, k) || rank == u32::MAX {
        (rank, y)
    } else {
        geometric(y, k, (rank + 1) as u32)
    }
}

/// A drawn rank is at least the rank the draw starts from.
proof fn lemma_geometric_at_least(x: u64, k: u32, rank: u32)
    ensures
        geometric(x, k, rank).0 >= rank,
    decreases u32::MAX - rank,
{
    let y = xorshift(x);
    if !(stops(y, k) || rank == u32::MAX) {
        lemma_geometric_at_least(y, k, (rank + 1) as u32);
    }
}

/// The first trial of a draw from `state`: one xorshift64 step, then the
/// high 32 bits of its product with the xorshift64* multiplier. The rank is 1
/// exactly when that word is not a multiple of `k` (probability 1 - 1/k), and
/// the generator then holds the stepped state; otherwise the rank is at
/// least 2.
pub proof fn lemma_draw_first_trial(state: u64, k: u32)
    requires
        k >= 1,
    ensures
        ({
            let a = state ^ (state >> 12u64);
            let b = a ^ (a << 25u64);
            let x = b ^ (b >> 27u64);
            let t = (x.wrapping_mul(0x2545F4914F6CDD1D) >> 32u64) as u32;
            &&& (geometric(state, k, 1).0 == 1) == (t % k != 0)
            &&& t % k != 0 ==> geometric(state, k, 1).1 == x
            &&& t % k == 0 ==> geometric(state, k, 1).0 >= 2
        }),
{
    let y = xorshift(state);
    if !stops(y, k) {
        lemma_geometric_at_least(y, k, 2);
    }
}

/// With `k` of 1 every word is a multiple of `k`, so no trial stops: the
/// rank climbs to the largest `u32`, whatever the state.
pub proof fn lemma_draw_never_stops_for_one(state: u64, rank: u32)
    ensures
        geometric(state, 1, rank).0 == u32::MAX,
    decreases u32::MAX - rank,
{
    let y = xorshift(state);
    assert(!stops(y, 1));
    if rank < u32::MAX {
        lemma_draw_never_stops_for_one(y, (rank + 1) as u32);
    }
}

/// Draw a geometric rank from generator state `state`.
pub fn draw(state: u64, k: u32) -> (r: (u32, u64))
    requires
        k >= 1,
    ensures
        r == geometric(state, k, 1),
        r.0 >= 1,
{
    proof {
        lemma_geometric_at_least(state, k, 1);
    }
    let mut x = state;
    let mut rank: u32 = 1;
    loop
        invariant
            k >= 1,
            1 <= rank,
            geometric(x, k, rank) == geometric(state, k, 1),
        decreases u32::MAX - rank,
    {
        let a = x ^ (x >> 12u64);
        let b = a ^ (a << 25u64);
        x = b ^ (b >> 27u64);
        let t = (x.wrapping_mul(0x2545F4914F6CDD1D) >> 32u64) as u32;
        if t % k != 0 || rank == u32::MAX {
            return (rank, x);
        }
        rank = rank + 1;
    }
}

/// Random ranks: the tree depends on insertion order, but keys need no hash.
pub struct Random {
    k: u32,
    state: AtomicU64,
}

impl Random {
    /// The expected number of keys per node.
    pub closed spec fn k_view(&self) -> u32 {
        self.k
    }
}

/// A freshly seeded `RandomState`.
///
/// Calls `RandomState::new`, which the standard library seeds with random
/// keys; nothing is promised of the result.
#[verifier::external_body]
fn random_state() -> std::hash::RandomState {
    std::hash::RandomState::new()
}

/// A hasher keyed by `s`.
///
/// Calls `BuildHasher::build_hasher` on a `RandomState`; what the hasher
/// holds depends on the random keys of `s`, so nothing is promised of it.
#[verifier::external_body]
fn build_hasher(s: &std::hash::RandomState) -> std::collections::hash_map::DefaultHasher {
    s.build_hasher()
}

/// Fresh entropy for a random generator: the digest of an empty input under
/// randomly seeded keys.
fn entropy() -> u64 {
    let s = random_state();
    let h = build_hasher(&s);
    h.finish()
}

/// Random ranks with about `k` keys per node, from a randomly seeded
/// generator.
pub fn random(k: u32) -> (r: Random)
    requires
        k >= 2,
    ensures
        r.k_view() == k,
{
    let seed = entropy() | 1;
    Random { k, state: AtomicU64::new(seed) }
}

impl<K> Rank<K> for Random {
    open spec fn accepts(&self, key: &K, seed: u32) -> bool {
        self.k_view() >= 2
    }

    /// The rank that [`geometric`] draws from some generator state: which
    /// state is the one the generator holds at the call.
    open spec fn gives(&self, key: &K, seed: u32, r: u32) -> bool {
        &&& r >= 1
        &&& exists|state: u64| r == (#[trigger] geometric(state, self.k_view(), 1)).0
    }

    /// A geometric rank drawn from the generator; keys and seeds are ignored.
    fn rank(&self, key: &K, seed: u32) -> (r: u32) {
        let s = self.state.load(std::sync::atomic::Ordering::Relaxed);
        let (r, next) = draw(s, self.k);
        self.state.store(next, std::sync::atomic::Ordering::Relaxed);
        assert(r == geometric(s, self.k_view(), 1).0);
        r
    }
}

}
