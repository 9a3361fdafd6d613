//! An immutable, ordered map on a G-tree. Every update returns a new map
//! that shares structure with the old one.

use std::cmp::Ordering;
use std::hash::Hash;
use std::sync::Arc;
use vstd::prelude::*;
use vstd::std_specs::cmp::OrdSpec;

use crate::rank::{Hashed, Rank, hashed};
use crate::tree::{
    ArrayItems, Entry, Item, Tree, all_are, int_of, clone_of, clones_exact, entries, find, hits, insert, keyed_by,
    lead, matches_items, monotone, remove, single, size, slice_wf, spliced, total, tree_items, tree_len,
    tree_wf, value_of,
};

verus! {

// ---------------------------------------------------------------------------
// Keys
// ---------------------------------------------------------------------------

/// `K`'s `cmp` is a total order that agrees with equality: the keys the
/// structures are meant for.
pub open spec fn key_order<K: Ord>() -> bool {
    &&& K::obeys_cmp_spec()
    &&& forall|a: K, b: K| (#[trigger] a.cmp_spec(&b) == Ordering::Equal) <==> a == b
    &&& forall|a: K, b: K| (#[trigger] a.cmp_spec(&b) == Ordering::Less) <==> (b.cmp_spec(&a) == Ordering::Greater)
    &&& forall|a: K, b: K, c: K|
        #[trigger] a.cmp_spec(&b) == Ordering::Less && #[trigger] b.cmp_spec(&c) == Ordering::Less
            ==> a.cmp_spec(&c) == Ordering::Less
}

/// The position of `key`: every key compared with it.
pub open spec fn key_pos<K: Ord, V>(key: K) -> spec_fn(K, V) -> Ordering {
    |k: K, v: V| k.cmp_spec(&key)
}

/// The keys of `s` are strictly increasing.
pub open spec fn sorted<K: Ord, V>(s: Seq<Item<K, V>>) -> bool {
    forall|i: int, j: int| 0 <= i < j < s.len() ==> (#[trigger] s[i]).key.cmp_spec(&(#[trigger] s[j]).key) == Ordering::Less
}

/// The value of the first key of `s` equal to `k`.
pub open spec fn lookup<K, V>(s: Seq<Item<K, V>>, k: K) -> Option<V>
    decreases s.len(),
{
    if s.len() == 0 {
        None
    } else if s[0].key == k {
        Some(s[0].value)
    } else {
        lookup(s.drop_first(), k)
    }
}

/// The map of the keys of `s` to their values.
pub open spec fn items_map<K, V>(s: Seq<Item<K, V>>) -> Map<K, V> {
    Map::new(|k: K| lookup(s, k) is Some, |k: K| lookup(s, k)->0)
}

/// Looking up in a concatenation looks in the first part, then the second.
pub proof fn lemma_lookup_append<K, V>(a: Seq<Item<K, V>>, b: Seq<Item<K, V>>, k: K)
    ensures
        lookup(a + b, k) == (if lookup(a, k) is Some { lookup(a, k) } else { lookup(b, k) }),
    decreases a.len(),
{
    if a.len() == 0 {
        assert(a + b =~= b);
    } else {
        assert((a + b)[0] == a[0]);
        assert((a + b).drop_first() =~= a.drop_first() + b);
        lemma_lookup_append(a.drop_first(), b, k);
    }
}

/// A key that no item has is not found.
pub proof fn lemma_lookup_absent<K, V>(a: Seq<Item<K, V>>, k: K)
    requires
        forall|i: int| 0 <= i < a.len() ==> (#[trigger] a[i]).key != k,
    ensures
        lookup(a, k) is None,
    decreases a.len(),
{
    if a.len() > 0 {
        assert forall|i: int| 0 <= i < a.drop_first().len() implies (#[trigger] a.drop_first()[i]).key != k by {
            assert(a.drop_first()[i] == a[i + 1]);
        }
        lemma_lookup_absent(a.drop_first(), k);
    }
}

/// The properties of the count of leading keys before a position.
pub proof fn lemma_lead_props<K, V>(s: Seq<Item<K, V>>, f: spec_fn(K, V) -> Ordering)
    ensures
        0 <= lead(s, f) <= s.len(),
        forall|i: int| 0 <= i < lead(s, f) ==> f((#[trigger] s[i]).key, s[i].value) == Ordering::Less,
        lead(s, f) < s.len() ==> f(s[lead(s, f)].key, s[lead(s, f)].value) != Ordering::Less,
    decreases s.len(),
{
    if s.len() > 0 && f(s[0].key, s[0].value) == Ordering::Less {
        lemma_lead_props(s.drop_first(), f);
        assert forall|i: int| 0 <= i < lead(s, f) implies f((#[trigger] s[i]).key, s[i].value) == Ordering::Less by {
            if i > 0 {
                assert(s[i] == s.drop_first()[i - 1]);
            }
        }
    }
}

/// Sorted keys are monotone around any key.
pub proof fn lemma_sorted_monotone<K: Ord, V>(s: Seq<Item<K, V>>, key: K)
    requires
        key_order::<K>(),
        sorted(s),
    ensures
        monotone(s, key_pos(key)),
{
    let f = key_pos(key);
    assert forall|i: int, j: int|
        0 <= i < j < s.len() && f(#[trigger] s[i].key, s[i].value) != Ordering::Less implies f(#[trigger] s[j].key, s[j].value)
        == Ordering::Greater by {
        assert(s[i].key.cmp_spec(&s[j].key) == Ordering::Less);
        if s[i].key.cmp_spec(&key) == Ordering::Equal {
            assert(s[i].key == key);
        } else {
            assert(key.cmp_spec(&s[i].key) == Ordering::Less);
            assert(key.cmp_spec(&s[j].key) == Ordering::Less);
        }
    }
}

/// Around the position of `key`, sorted keys fall into those before it, the
/// key itself (if present), and those after it.
pub proof fn lemma_sorted_parts<K: Ord, V>(s: Seq<Item<K, V>>, key: K)
    requires
        key_order::<K>(),
        sorted(s),
    ensures
        ({
            let f = key_pos(key);
            let n = lead(s, f);
            let h = hits(s, f);
            &&& 0 <= n && n + h <= s.len()
            &&& forall|i: int| 0 <= i < n ==> (#[trigger] s[i]).key.cmp_spec(&key) == Ordering::Less
            &&& h == 1 ==> s[n].key == key
            &&& forall|i: int| n + h <= i < s.len() ==> (#[trigger] s[i]).key.cmp_spec(&key) == Ordering::Greater
            &&& (lookup(s, key) is Some <==> h == 1)
            &&& h == 1 ==> lookup(s, key) == Some(s[n].value)
        }),
{
    let f = key_pos(key);
    lemma_lead_props(s, f);
    lemma_sorted_monotone(s, key);
    let n = lead(s, f);
    let h = hits(s, f);
    assert forall|i: int| n + h <= i < s.len() implies (#[trigger] s[i]).key.cmp_spec(&key) == Ordering::Greater by {
        if i > n {
            assert(f(s[n].key, s[n].value) != Ordering::Less);
        }
    }
    assert(s =~= s.take(n) + s.skip(n));
    lemma_lookup_absent(s.take(n), key);
    lemma_lookup_append(s.take(n), s.skip(n), key);
    if h == 1 {
        assert(s.skip(n)[0] == s[n]);
    } else {
        assert forall|i: int| 0 <= i < s.skip(n).len() implies (#[trigger] s.skip(n)[i]).key != key by {
            assert(s.skip(n)[i] == s[n + i]);
        }
        lemma_lookup_absent(s.skip(n), key);
    }
}

/// Putting `x` in place of the key of its position keeps the keys sorted and
/// updates the map with it.
pub proof fn lemma_splice_insert<K: Ord, V>(s: Seq<Item<K, V>>, x: Item<K, V>)
    requires
        key_order::<K>(),
        sorted(s),
    ensures
        sorted(spliced(s, key_pos(x.key), seq![x])),
        items_map(spliced(s, key_pos(x.key), seq![x])) == items_map(s).insert(x.key, x.value),
        spliced(s, key_pos(x.key), seq![x]).len() == s.len() + 1 - hits(s, key_pos(x.key)),
{
    let key = x.key;
    let f = key_pos(key);
    lemma_sorted_parts(s, key);
    let n = lead(s, f);
    let h = hits(s, f);
    let a = s.take(n);
    let b = s.skip(n + h);
    let t = spliced(s, f, seq![x]);
    assert(t == a + seq![x] + b);
    assert forall|i: int, j: int| 0 <= i < j < t.len() implies (#[trigger] t[i]).key.cmp_spec(&(#[trigger] t[j]).key)
        == Ordering::Less by {
        if j < n {
            assert(t[i] == s[i] && t[j] == s[j]);
        } else if j == n {
            assert(t[i] == s[i] && t[j] == x);
        } else if i < n {
            assert(t[i] == s[i] && t[j] == s[j - 1 + h]);
        } else if i == n {
            assert(t[i] == x && t[j] == s[j - 1 + h]);
            assert(s[j - 1 + h].key.cmp_spec(&key) == Ordering::Greater);
        } else {
            assert(t[i] == s[i - 1 + h] && t[j] == s[j - 1 + h]);
        }
    }
    assert forall|k: K| true implies lookup(t, k) == (if k == key { Some(x.value) } else { lookup(s, k) }) by {
        lemma_lookup_append(a + seq![x], b, k);
        lemma_lookup_append(a, seq![x], k);
        lemma_lookup_absent(Seq::<Item<K, V>>::empty(), k);
        assert(seq![x].drop_first() =~= Seq::<Item<K, V>>::empty());
        assert(s =~= a + (s.subrange(n, n + h) + b));
        lemma_lookup_append(a, s.subrange(n, n + h) + b, k);
        lemma_lookup_append(s.subrange(n, n + h), b, k);
        if k == key {
            lemma_lookup_absent(a, k);
        } else if h == 1 {
            assert(s.subrange(n, n + h)[0] == s[n]);
            assert(s.subrange(n, n + h).drop_first() =~= Seq::<Item<K, V>>::empty());
        } else {
            assert(s.subrange(n, n + h) =~= Seq::<Item<K, V>>::empty());
        }
    }
    assert(items_map(t) =~= items_map(s).insert(key, x.value));
}

/// Taking out the key of a position keeps the keys sorted and removes it
/// from the map.
pub proof fn lemma_splice_remove<K: Ord, V>(s: Seq<Item<K, V>>, key: K)
    requires
        key_order::<K>(),
        sorted(s),
    ensures
        sorted(spliced(s, key_pos(key), Seq::empty())),
        items_map(spliced(s, key_pos(key), Seq::empty())) == items_map(s).remove(key),
        spliced(s, key_pos(key), Seq::empty()).len() == s.len() - hits(s, key_pos(key)),
{
    let f = key_pos(key);
    lemma_sorted_parts(s, key);
    let n = lead(s, f);
    let h = hits(s, f);
    let a = s.take(n);
    let b = s.skip(n + h);
    let t = spliced(s, f, Seq::empty());
    assert(t =~= a + b);
    assert forall|i: int, j: int| 0 <= i < j < t.len() implies (#[trigger] t[i]).key.cmp_spec(&(#[trigger] t[j]).key)
        == Ordering::Less by {
        if j < n {
            assert(t[i] == s[i] && t[j] == s[j]);
        } else if i < n {
            assert(t[i] == s[i] && t[j] == s[j + h]);
        } else {
            assert(t[i] == s[i + h] && t[j] == s[j + h]);
        }
    }
    assert forall|k: K| true implies lookup(t, k) == (if k == key { None } else { lookup(s, k) }) by {
        lemma_lookup_append(a, b, k);
        assert(s =~= a + (s.subrange(n, n + h) + b));
        lemma_lookup_append(a, s.subrange(n, n + h) + b, k);
        lemma_lookup_append(s.subrange(n, n + h), b, k);
        if k == key {
            assert forall|i: int| 0 <= i < a.len() implies (#[trigger] a[i]).key != k by {
                assert(a[i] == s[i]);
            }
            lemma_lookup_absent(a, k);
            assert forall|i: int| 0 <= i < b.len() implies (#[trigger] b[i]).key != k by {
                assert(b[i] == s[n + h + i]);
            }
            lemma_lookup_absent(b, k);
        } else if h == 1 {
            assert(s.subrange(n, n + h)[0] == s[n]);
            assert(s.subrange(n, n + h).drop_first() =~= Seq::<Item<K, V>>::empty());
            assert(s[n].key == key);
            assert(s.subrange(n, n + h)[0].key != k);
            assert(lookup(Seq::<Item<K, V>>::empty(), k) is None);
            assert(lookup(s.subrange(n, n + h), k) is None);
            assert(lookup(s, k) == (if lookup(a, k) is Some { lookup(a, k) } else { lookup(b, k) }));
            assert(lookup(t, k) == lookup(a + b, k));
        } else {
            assert(s.subrange(n, n + h) =~= Seq::<Item<K, V>>::empty());
            assert(s.subrange(n, n + h) + b =~= b);
        }
    }
    assert(items_map(t) =~= items_map(s).remove(key));
}


// ---------------------------------------------------------------------------
// Sorted sequences are determined by their keys
// ---------------------------------------------------------------------------

/// The first item of `s` with key `k`.
pub open spec fn find_item<K, V>(s: Seq<Item<K, V>>, k: K) -> Option<Item<K, V>>
    decreases s.len(),
{
    if s.len() == 0 {
        None
    } else if s[0].key == k {
        Some(s[0])
    } else {
        find_item(s.drop_first(), k)
    }
}

/// The rank of the first item of `s` with key `k`.
pub open spec fn rank_lookup<K, V>(s: Seq<Item<K, V>>, k: K) -> u32
    decreases s.len(),
{
    if s.len() == 0 {
        0
    } else if s[0].key == k {
        s[0].rank
    } else {
        rank_lookup(s.drop_first(), k)
    }
}

/// The map of the keys of `s` to their ranks.
pub open spec fn ranks_map<K, V>(s: Seq<Item<K, V>>) -> Map<K, u32> {
    Map::new(|k: K| lookup(s, k) is Some, |k: K| rank_lookup(s, k))
}

/// The item found for a key is made of the key, its value and its rank.
proof fn lemma_find_item<K, V>(s: Seq<Item<K, V>>, k: K)
    ensures
        find_item(s, k) == (if lookup(s, k) is Some {
            Some(Item { key: k, value: lookup(s, k)->0, rank: rank_lookup(s, k) })
        } else {
            None
        }),
        find_item(s, k) matches Some(z) ==> exists|i: int| 0 <= i < s.len() && #[trigger] s[i] == z,
    decreases s.len(),
{
    if s.len() > 0 && s[0].key != k {
        lemma_find_item(s.drop_first(), k);
        if find_item(s, k) is Some {
            let i = choose|i: int| 0 <= i < s.drop_first().len() && #[trigger] s.drop_first()[i] == find_item(s, k)->0;
            assert(s[i + 1] == s.drop_first()[i]);
        }
    } else if s.len() > 0 {
        assert(s[0] == Item { key: k, value: s[0].value, rank: s[0].rank });
    }
}

/// Finding in a concatenation finds in the first part, then the second.
proof fn lemma_find_item_append<K, V>(a: Seq<Item<K, V>>, b: Seq<Item<K, V>>, k: K)
    ensures
        find_item(a + b, k) == (if find_item(a, k) is Some { find_item(a, k) } else { find_item(b, k) }),
    decreases a.len(),
{
    if a.len() == 0 {
        assert(a + b =~= b);
    } else {
        assert((a + b)[0] == a[0]);
        assert((a + b).drop_first() =~= a.drop_first() + b);
        lemma_find_item_append(a.drop_first(), b, k);
    }
}

/// A key that no item has is not found.
proof fn lemma_find_item_absent<K, V>(a: Seq<Item<K, V>>, k: K)
    requires
        forall|i: int| 0 <= i < a.len() ==> (#[trigger] a[i]).key != k,
    ensures
        find_item(a, k) is None,
    decreases a.len(),
{
    if a.len() > 0 {
        assert forall|i: int| 0 <= i < a.drop_first().len() implies (#[trigger] a.drop_first()[i]).key != k by {
            assert(a.drop_first()[i] == a[i + 1]);
        }
        lemma_find_item_absent(a.drop_first(), k);
    }
}

/// The ranks of sequences that have the same item for every key but one
/// agree on every other key.
proof fn lemma_ranks_map_update<K, V>(s: Seq<Item<K, V>>, t: Seq<Item<K, V>>, key: K)
    requires
        forall|k: K| k != key ==> #[trigger] find_item(t, k) == find_item(s, k),
    ensures
        forall|k: K| k != key ==> (#[trigger] ranks_map(t).contains_key(k) <==> ranks_map(s).contains_key(k)),
        forall|k: K| k != key && ranks_map(s).contains_key(k) ==> #[trigger] ranks_map(t)[k] == ranks_map(s)[k],
{
    assert forall|k: K| k != key implies (#[trigger] ranks_map(t).contains_key(k) <==> ranks_map(s).contains_key(k)) by {
        assert(find_item(t, k) == find_item(s, k));
        lemma_find_item(t, k);
        lemma_find_item(s, k);
    }
    assert forall|k: K| k != key && ranks_map(s).contains_key(k) implies #[trigger] ranks_map(t)[k] == ranks_map(s)[k] by {
        assert(find_item(t, k) == find_item(s, k));
        lemma_find_item(t, k);
        lemma_find_item(s, k);
    }
}

/// Putting `x` in place of the key of its position gives that key the rank
/// of `x`.
pub proof fn lemma_splice_insert_ranks<K: Ord, V>(s: Seq<Item<K, V>>, x: Item<K, V>)
    requires
        key_order::<K>(),
        sorted(s),
    ensures
        ranks_map(spliced(s, key_pos(x.key), seq![x])) == ranks_map(s).insert(x.key, x.rank),
{
    let key = x.key;
    let f = key_pos(key);
    lemma_sorted_parts(s, key);
    let n = lead(s, f);
    let h = hits(s, f);
    let a = s.take(n);
    let mid = s.subrange(n, n + h);
    let b = s.skip(n + h);
    let t = spliced(s, f, seq![x]);
    assert(s =~= a + (mid + b));
    assert forall|k: K| k != key implies #[trigger] find_item(t, k) == find_item(s, k) by {
        lemma_find_item_append(a + seq![x], b, k);
        lemma_find_item_append(a, seq![x], k);
        lemma_find_item_append(a, mid + b, k);
        lemma_find_item_append(mid, b, k);
        lemma_find_item_absent(seq![x], k);
        if h == 1 {
            assert(mid[0] == s[n]);
        }
        lemma_find_item_absent(mid, k);
    }
    lemma_ranks_map_update(s, t, key);
    assert(find_item(t, key) == Some(x)) by {
        assert forall|i: int| 0 <= i < a.len() implies (#[trigger] a[i]).key != key by {
            assert(a[i] == s[i]);
        }
        lemma_find_item_absent(a, key);
        lemma_find_item_append(a + seq![x], b, key);
        lemma_find_item_append(a, seq![x], key);
        assert(find_item(seq![x], key) == Some(x));
    }
    lemma_find_item(t, key);
    assert(ranks_map(t) =~= ranks_map(s).insert(key, x.rank));
}

/// Taking out the key of a position takes it out of the ranks.
pub proof fn lemma_splice_remove_ranks<K: Ord, V>(s: Seq<Item<K, V>>, key: K)
    requires
        key_order::<K>(),
        sorted(s),
    ensures
        ranks_map(spliced(s, key_pos(key), Seq::empty())) == ranks_map(s).remove(key),
{
    let f = key_pos(key);
    lemma_sorted_parts(s, key);
    lemma_splice_remove(s, key);
    let n = lead(s, f);
    let h = hits(s, f);
    let a = s.take(n);
    let mid = s.subrange(n, n + h);
    let b = s.skip(n + h);
    let t = spliced(s, f, Seq::empty());
    assert(t =~= a + b);
    assert(s =~= a + (mid + b));
    assert forall|k: K| k != key implies #[trigger] find_item(t, k) == find_item(s, k) by {
        lemma_find_item_append(a, b, k);
        lemma_find_item_append(a, mid + b, k);
        lemma_find_item_append(mid, b, k);
        if h == 1 {
            assert(mid[0] == s[n]);
        }
        lemma_find_item_absent(mid, k);
    }
    lemma_ranks_map_update(s, t, key);
    assert(!items_map(t).contains_key(key));
    assert(ranks_map(t) =~= ranks_map(s).remove(key));
}

/// The tail of a sorted sequence.
proof fn lemma_sorted_tail<K: Ord, V>(s: Seq<Item<K, V>>)
    requires
        sorted(s),
        s.len() > 0,
    ensures
        sorted(s.drop_first()),
        forall|i: int| 0 <= i < s.drop_first().len() ==> (#[trigger] s.drop_first()[i]).key.cmp_spec(&s[0].key)
            == Ordering::Greater || key_order::<K>() == false,
{
    assert forall|i: int, j: int| 0 <= i < j < s.drop_first().len() implies (#[trigger] s.drop_first()[i]).key.cmp_spec(
        &(#[trigger] s.drop_first()[j]).key) == Ordering::Less by {
        assert(s.drop_first()[i] == s[i + 1] && s.drop_first()[j] == s[j + 1]);
    }
    assert forall|i: int| 0 <= i < s.drop_first().len() implies (#[trigger] s.drop_first()[i]).key.cmp_spec(&s[0].key)
        == Ordering::Greater || key_order::<K>() == false by {
        assert(s.drop_first()[i] == s[i + 1]);
        assert(s[0].key.cmp_spec(&s[i + 1].key) == Ordering::Less);
    }
}

/// Two sorted sequences with the same item for every key are the same.
pub proof fn lemma_sorted_unique<K: Ord, V>(s1: Seq<Item<K, V>>, s2: Seq<Item<K, V>>)
    requires
        key_order::<K>(),
        sorted(s1),
        sorted(s2),
        forall|k: K| #[trigger] find_item(s1, k) == find_item(s2, k),
    ensures
        s1 == s2,
    decreases s1.len() + s2.len(),
{
    if s1.len() == 0 || s2.len() == 0 {
        if s1.len() > 0 {
            assert(find_item(s1, s1[0].key) is Some);
            assert(find_item(s2, s1[0].key) is None);
        }
        if s2.len() > 0 {
            assert(find_item(s2, s2[0].key) is Some);
            assert(find_item(s1, s2[0].key) is None);
        }
        assert(s1 =~= s2);
    } else {
        let x = s1[0];
        let y = s2[0];
        assert(find_item(s1, x.key) == Some(x));
        assert(find_item(s2, y.key) == Some(y));
        lemma_find_item(s1, y.key);
        lemma_find_item(s2, x.key);
        let i = choose|i: int| 0 <= i < s1.len() && #[trigger] s1[i] == find_item(s1, y.key)->0;
        let j = choose|j: int| 0 <= j < s2.len() && #[trigger] s2[j] == find_item(s2, x.key)->0;
        if i > 0 && j > 0 {
            assert(x.key.cmp_spec(&s1[i].key) == Ordering::Less);
            assert(y.key.cmp_spec(&s2[j].key) == Ordering::Less);
            assert(false);
        }
        assert(x == y);
        lemma_sorted_tail(s1);
        lemma_sorted_tail(s2);
        let t1 = s1.drop_first();
        let t2 = s2.drop_first();
        assert forall|k: K| #[trigger] find_item(t1, k) == find_item(t2, k) by {
            if k == x.key {
                lemma_find_item(t1, k);
                lemma_find_item(t2, k);
                if find_item(t1, k) is Some {
                    let a = choose|a: int| 0 <= a < t1.len() && #[trigger] t1[a] == find_item(t1, k)->0;
                    assert(t1[a].key.cmp_spec(&x.key) == Ordering::Greater);
                }
                if find_item(t2, k) is Some {
                    let a = choose|a: int| 0 <= a < t2.len() && #[trigger] t2[a] == find_item(t2, k)->0;
                    assert(t2[a].key.cmp_spec(&x.key) == Ordering::Greater);
                }
            } else {
                assert(find_item(s1, k) == find_item(t1, k));
                assert(find_item(s2, k) == find_item(t2, k));
            }
        }
        lemma_sorted_unique(t1, t2);
        assert(s1 =~= seq![x] + t1);
        assert(s2 =~= seq![y] + t2);
    }
}

/// A key that an item of `s` has is found.
proof fn lemma_find_item_present<K, V>(s: Seq<Item<K, V>>, i: int)
    requires
        0 <= i < s.len(),
    ensures
        find_item(s, s[i].key) is Some,
    decreases s.len(),
{
    if i > 0 && s[0].key != s[i].key {
        assert(s.drop_first()[i - 1] == s[i]);
        lemma_find_item_present(s.drop_first(), i - 1);
    }
}

/// In a sorted sequence, the item found for the key of an item is that item.
proof fn lemma_find_item_sorted<K: Ord, V>(s: Seq<Item<K, V>>, i: int)
    requires
        key_order::<K>(),
        sorted(s),
        0 <= i < s.len(),
    ensures
        find_item(s, s[i].key) == Some(s[i]),
{
    let k = s[i].key;
    lemma_find_item_present(s, i);
    lemma_find_item(s, k);
    let j = choose|j: int| 0 <= j < s.len() && #[trigger] s[j] == find_item(s, k)->0;
    assert(s[j].key == k);
    if j < i {
        assert(s[j].key.cmp_spec(&s[i].key) == Ordering::Less);
    } else if i < j {
        assert(s[i].key.cmp_spec(&s[j].key) == Ordering::Less);
    }
}

/// Two sequences sorted by key that hold the same items are the same
/// sequence: the order of the items is a function of the set of them.
pub proof fn lemma_sorted_same_items<K: Ord, V>(s1: Seq<Item<K, V>>, s2: Seq<Item<K, V>>)
    requires
        key_order::<K>(),
        sorted(s1),
        sorted(s2),
        forall|x: Item<K, V>| s1.contains(x) <==> s2.contains(x),
    ensures
        s1 == s2,
{
    assert forall|k: K| #[trigger] find_item(s1, k) == find_item(s2, k) by {
        if exists|i: int| 0 <= i < s1.len() && s1[i].key == k {
            let i = choose|i: int| 0 <= i < s1.len() && s1[i].key == k;
            assert(s1.contains(s1[i]));
            let j = choose|j: int| 0 <= j < s2.len() && s2[j] == s1[i];
            lemma_find_item_sorted(s1, i);
            lemma_find_item_sorted(s2, j);
        } else {
            lemma_find_item_absent(s1, k);
            assert forall|j: int| 0 <= j < s2.len() implies (#[trigger] s2[j]).key != k by {
                assert(s2.contains(s2[j]));
                if s2[j].key == k {
                    let i = choose|i: int| 0 <= i < s1.len() && s1[i] == s2[j];
                    assert(s1[i].key == k);
                }
            }
            lemma_find_item_absent(s2, k);
        }
    }
    lemma_sorted_unique(s1, s2);
}

/// The keys of a sorted sequence, one per item, with no key twice.
pub open spec fn keys_of<K, V>(s: Seq<Item<K, V>>) -> Seq<K> {
    s.map_values(|x: Item<K, V>| x.key)
}

/// The map of a sorted sequence has one key per item: each item's key maps
/// to its value, and every key of the map is an item's.
pub proof fn lemma_items_view<K: Ord, V>(s: Seq<Item<K, V>>)
    requires
        key_order::<K>(),
        sorted(s),
    ensures
        items_map(s).dom() == keys_of(s).to_set(),
        items_map(s).dom().len() == s.len(),
        forall|i: int| 0 <= i < s.len() ==> #[trigger] items_map(s).contains_key(s[i].key) && items_map(s)[s[i].key] == s[i].value,
        forall|k: K| #[trigger] items_map(s).contains_key(k) ==> exists|i: int| 0 <= i < s.len() && s[i].key == k,
{
    let ks = keys_of(s);
    assert forall|i: int, j: int| 0 <= i < ks.len() && 0 <= j < ks.len() && i != j implies ks[i] != ks[j] by {
        if i < j {
            assert(s[i].key.cmp_spec(&s[j].key) == Ordering::Less);
        } else {
            assert(s[j].key.cmp_spec(&s[i].key) == Ordering::Less);
        }
    }
    ks.unique_seq_to_set();
    assert forall|i: int| 0 <= i < s.len() implies #[trigger] items_map(s).contains_key(s[i].key) && items_map(s)[s[i].key] == s[i].value by {
        lemma_find_item_sorted(s, i);
        lemma_find_item(s, s[i].key);
    }
    assert forall|k: K| #[trigger] items_map(s).contains_key(k) implies exists|i: int| 0 <= i < s.len() && s[i].key == k by {
        lemma_find_item(s, k);
    }
    assert forall|k: K| items_map(s).dom().contains(k) <==> ks.to_set().contains(k) by {
        if items_map(s).contains_key(k) {
            let i = choose|i: int| 0 <= i < s.len() && s[i].key == k;
            assert(ks[i] == k);
        }
        if ks.to_set().contains(k) {
            let i = choose|i: int| 0 <= i < ks.len() && ks[i] == k;
            assert(items_map(s).contains_key(s[i].key));
        }
    }
    assert(items_map(s).dom() =~= ks.to_set());
}

/// The same items give the same tree, whatever order they were inserted
/// and removed in: two well-formed G-trees whose items are sorted by key and
/// are the same set of (key, value, rank) items have the same shape.
pub proof fn lemma_same_items_same_shape<K: Ord, V>(t1: Tree<K, V>, t2: Tree<K, V>)
    requires
        key_order::<K>(),
        tree_wf(t1),
        tree_wf(t2),
        sorted(tree_items(t1)),
        sorted(tree_items(t2)),
        forall|x: Item<K, V>| tree_items(t1).contains(x) <==> tree_items(t2).contains(x),
    ensures
        crate::tree::fingerprint(t1) == crate::tree::fingerprint(t2),
{
    lemma_sorted_same_items(tree_items(t1), tree_items(t2));
    crate::tree::lemma_history_independent(t1, t2);
}

// ---------------------------------------------------------------------------
// Ranks
// ---------------------------------------------------------------------------

/// Every item of `s` has a rank that `rank` may give its key under seed 0.
pub open spec fn ranks_given<K, V, R: Rank<K>>(rank: R, s: Seq<Item<K, V>>) -> bool {
    forall|i: int| 0 <= i < s.len() ==> rank.gives(&(#[trigger] s[i]).key, 0, s[i].rank)
}

/// Splicing items with given ranks into items with given ranks keeps every
/// rank given.
pub proof fn lemma_ranks_given_spliced<K, V, R: Rank<K>>(
    rank: R,
    s: Seq<Item<K, V>>,
    f: spec_fn(K, V) -> Ordering,
    mid: Seq<Item<K, V>>,
)
    requires
        ranks_given(rank, s),
        ranks_given(rank, mid),
    ensures
        ranks_given(rank, spliced(s, f, mid)),
{
    lemma_lead_props(s, f);
    let n = lead(s, f);
    let h = hits(s, f);
    let t = spliced(s, f, mid);
    assert forall|i: int| 0 <= i < t.len() implies rank.gives(&(#[trigger] t[i]).key, 0, t[i].rank) by {
        if i < n {
            assert(t[i] == s[i]);
        } else if i < n + mid.len() {
            assert(t[i] == mid[i - n]);
        } else {
            assert(t[i] == s[i - mid.len() + h]);
        }
    }
}

/// The rank of a key of `s` is one that `rank` gives it.
proof fn lemma_rank_lookup_given<K, V, R: Rank<K>>(rank: R, s: Seq<Item<K, V>>, k: K)
    requires
        ranks_given(rank, s),
        lookup(s, k) is Some,
    ensures
        rank.gives(&k, 0, rank_lookup(s, k)),
{
    lemma_find_item(s, k);
    let i = choose|i: int| 0 <= i < s.len() && #[trigger] s[i] == find_item(s, k)->0;
    assert(s[i].key == k && s[i].rank == rank_lookup(s, k));
}

// ---------------------------------------------------------------------------
// Options
// ---------------------------------------------------------------------------

/// How a map or set assigns ranks and stores the entries of a node.
pub struct Options<R, S> {
    pub rank: R,
    pub empty: S,
}

impl<S> Options<Hashed, S> {
    /// Hashed ranks with about `k` keys per node, over the given empty inner set.
    pub fn new(k: u32, empty: S) -> (r: Self)
        requires
            k != 1,
        ensures
            r.rank.k_view() == k,
            r.empty == empty,
    {
        Options { rank: hashed(k), empty }
    }
}

impl<K: Clone, V: Clone> Default for Options<Hashed, ArrayItems<K, V>> {
    /// Hashed ranks with about 8 keys per node, over an empty array.
    fn default() -> (r: Self)
        ensures
            r.rank.k_view() == 8,
            r.empty.0.entries@.len() == 0,
            slice_wf(r.empty.0),
    {
        Options::new(8, ArrayItems::new())
    }
}

// ---------------------------------------------------------------------------
// The map
// ---------------------------------------------------------------------------

/// An immutable, ordered map. Every update returns a new map that shares
/// structure with the old one.
pub struct GMap<K, V, R = Hashed> {
    pub root: Tree<K, V>,
    options: Arc<Options<R, ArrayItems<K, V>>>,
}

impl<K, V, R> Clone for GMap<K, V, R> {
    fn clone(&self) -> (r: Self)
        ensures
            r == *self,
    {
        GMap { root: crate::tree::share(&self.root), options: self.options.clone() }
    }
}

/// The map after inserting each pair of `pairs`, in order.
pub open spec fn insert_all<K, V>(m: Map<K, V>, pairs: Seq<(K, V)>) -> Map<K, V>
    decreases pairs.len(),
{
    if pairs.len() == 0 {
        m
    } else {
        insert_all(m, pairs.drop_last()).insert(pairs.last().0, pairs.last().1)
    }
}

impl<K, V, R> GMap<K, V, R> {
    /// The tree behind the map.
    pub closed spec fn root_view(&self) -> Tree<K, V> {
        self.root
    }

    /// The tree behind the map.
    pub(crate) fn root_ref(&self) -> (r: &Tree<K, V>)
        ensures
            *r == self.root_view(),
    {
        &self.root
    }

    /// The items of the map are those of its tree.
    pub proof fn lemma_root(&self)
        ensures
            self.items() == tree_items(self.root_view()),
    {
    }

    /// The rank function.
    pub closed spec fn rank_fn(&self) -> R {
        self.options.rank
    }

    /// The empty inner set is empty and weighs nothing.
    pub closed spec fn empty_ok(&self) -> bool {
        self.options.empty.0.entries@.len() == 0 && self.options.empty.0.weight == 0
    }

    /// The keys of the map, in order, with their values and ranks.
    pub closed spec fn items(&self) -> Seq<Item<K, V>> {
        tree_items(self.root)
    }
}

impl<K, V, R: Rank<K>> GMap<K, V, R> {
    /// Every key of the map has a rank that the rank function gives it.
    pub closed spec fn ranked(&self) -> bool {
        ranks_given(self.options.rank, self.items())
    }
}

impl<K: Ord, V, R> GMap<K, V, R> {
    /// The map is a well-formed G-tree of strictly increasing keys.
    pub closed spec fn wf(&self) -> bool {
        &&& tree_wf(self.root)
        &&& sorted(self.items())
        &&& self.empty_ok()
    }
}

impl<K, V, R> View for GMap<K, V, R> {
    type V = Map<K, V>;

    open spec fn view(&self) -> Map<K, V> {
        items_map(self.items())
    }
}

impl<K: Ord + Clone + Hash, V: Clone> Default for GMap<K, V> {
    fn default() -> (r: Self)
        ensures
            r.wf(),
            r.ranked(),
            r.items().len() == 0,
            r.rank_fn().k_view() == 8,
    {
        Self::with(Options::default())
    }
}

impl<K: Ord + Clone + Hash, V: Clone> GMap<K, V> {
    /// An empty map with hashed ranks and about 8 keys per node.
    pub fn new() -> (r: Self)
        ensures
            r.wf(),
            r.ranked(),
            r.items().len() == 0,
            r.rank_fn().k_view() == 8,
    {
        Self::default()
    }

    /// The map of the given pairs, later ones replacing earlier ones.
    pub fn from_pairs(pairs: Vec<(K, V)>) -> (r: Self)
        requires
            key_order::<K>(),
            clones_exact::<K, V>(),
            pairs@.len() <= usize::MAX,
        ensures
            r.wf(),
            r.ranked(),
            r@ == insert_all(Map::empty(), pairs@),
            r.items().len() <= pairs@.len(),
            r.rank_fn().k_view() == 8,
    {
        let mut m = Self::new();
        proof {
            lemma_items_empty(&m);
        }
        m.extend(pairs);
        m
    }
}

impl<K: Ord + Clone, V: Clone, R: Rank<K>> GMap<K, V, R> {
    /// An empty map with the given options.
    pub fn with(options: Options<R, ArrayItems<K, V>>) -> (r: Self)
        requires
            options.empty.0.entries@.len() == 0,
            slice_wf(options.empty.0),
        ensures
            r.wf(),
            r.ranked(),
            r.items().len() == 0,
            r.rank_fn() == options.rank,
    {
        let r = GMap { root: None, options: Arc::new(options) };
        assert(r.items() =~= Seq::<Item<K, V>>::empty());
        r
    }

    pub fn len(&self) -> (r: usize)
        requires
            self.wf(),
        ensures
            r == self.items().len(),
            key_order::<K>() ==> r == self@.len(),
    {
        proof {
            if key_order::<K>() {
                lemma_items_view(self.items());
            }
        }
        size(&self.root)
    }

    pub fn is_empty(&self) -> (r: bool)
        requires
            self.wf(),
        ensures
            r == (self.items().len() == 0),
    {
        proof {
            if self.root is Some {
                crate::tree::lemma_root_len(self.root);
                crate::tree::lemma_run_last(crate::tree::root_entries(self.root), self.root->0.rank);
            }
        }
        self.root.is_none()
    }

    /// The entry of `key`, if the map has it.
    fn entry(&self, key: &K) -> (r: Option<&Entry<K, V>>)
        requires
            self.wf(),
            key_order::<K>(),
        ensures
            r is Some <==> self@.contains_key(*key),
            r matches Some(e) ==> e.key == *key && value_of(e.value) == self@[*key],
    {
        let at = |e: &Entry<K, V>| -> (o: Ordering)
            ensures
                K::obeys_cmp_spec() ==> o == e.key.cmp_spec(key),
        {
            e.key.cmp(key)
        };
        proof {
            assert(total(at));
            assert(keyed_by(at, key_pos(*key)));
            lemma_sorted_monotone(self.items(), *key);
            lemma_sorted_parts(self.items(), *key);
        }
        let found = find(&self.root, &at);
        match found {
            None => None,
            Some(e) => {
                match e.key.cmp(key) {
                    Ordering::Equal => Some(e),
                    _ => None,
                }
            },
        }
    }

    pub fn contains_key(&self, key: &K) -> (r: bool)
        requires
            self.wf(),
            key_order::<K>(),
        ensures
            r == self@.contains_key(*key),
    {
        self.entry(key).is_some()
    }

    pub fn get(&self, key: &K) -> (r: Option<&V>)
        requires
            self.wf(),
            key_order::<K>(),
        ensures
            r is Some <==> self@.contains_key(*key),
            r matches Some(v) ==> *v == self@[*key],
    {
        match self.entry(key) {
            None => None,
            Some(e) => Some(e.value()),
        }
    }

    /// A map with `value` at `key`, replacing any previous value.
    pub fn insert(&self, key: K, value: V) -> (r: Self)
        requires
            self.wf(),
            key_order::<K>(),
            clones_exact::<K, V>(),
            self.items().len() < usize::MAX,
            self.rank_fn().accepts(&key, 0),
        ensures
            r.wf(),
            r@ == self@.insert(key, value),
            exists|rk: u32| self.rank_fn().gives(&key, 0, rk) && r.ranks() == self.ranks().insert(key, rk),
            self.ranked() ==> r.ranked(),
            r.rank_fn() == self.rank_fn(),
            r.items().len() == self.items().len() + if self@.contains_key(key) { 0int } else { 1int },
    {
        let rank = self.options.rank.rank(&key, 0);
        let one = single(clone_of(&key), value, rank, &self.options.empty);
        let kr = &key;
        let at = |e: &Entry<K, V>| -> (o: Ordering)
            ensures
                K::obeys_cmp_spec() ==> o == e.key.cmp_spec(kr),
        {
            e.key.cmp(kr)
        };
        proof {
            assert(total(at));
            assert(keyed_by(at, key_pos(key)));
            lemma_sorted_monotone(self.items(), key);
            lemma_splice_insert(self.items(), Item { key, value, rank });
            lemma_sorted_parts(self.items(), key);
        }
        let root = insert(&self.root, &at, &one);
        proof {
            let x = Item { key, value, rank };
            lemma_splice_insert_ranks(self.items(), x);
            assert(tree_items(root) == spliced(self.items(), key_pos(key), seq![x]));
            assert(self.rank_fn().gives(&key, 0, rank));
            assert(ranks_map(tree_items(root)) == self.ranks().insert(key, rank));
            if self.ranked() {
                let x = Item { key, value, rank };
                assert(ranks_given(self.rank_fn(), seq![x]));
                lemma_ranks_given_spliced(self.rank_fn(), self.items(), key_pos(key), seq![x]);
            }
        }
        GMap { root, options: self.options.clone() }
    }

    /// A map without `key`. Returns a clone of this map if the key is absent.
    pub fn remove(&self, key: &K) -> (r: Self)
        requires
            self.wf(),
            key_order::<K>(),
            clones_exact::<K, V>(),
        ensures
            r.wf(),
            r@ == self@.remove(*key),
            r.ranks() == self.ranks().remove(*key),
            self.ranked() ==> r.ranked(),
            r.rank_fn() == self.rank_fn(),
            r.items().len() == self.items().len() - if self@.contains_key(*key) { 1int } else { 0int },
            !self@.contains_key(*key) ==> r == *self,
    {
        if !self.contains_key(key) {
            assert(self.ranks().remove(*key) =~= self.ranks());
            return self.clone();
        }
        let at = |e: &Entry<K, V>| -> (o: Ordering)
            ensures
                K::obeys_cmp_spec() ==> o == e.key.cmp_spec(key),
        {
            e.key.cmp(key)
        };
        proof {
            assert(total(at));
            assert(keyed_by(at, key_pos(*key)));
            lemma_sorted_monotone(self.items(), *key);
            lemma_splice_remove(self.items(), *key);
            lemma_sorted_parts(self.items(), *key);
        }
        let root = remove(&self.root, &at);
        proof {
            lemma_splice_remove_ranks(self.items(), *key);
            if self.ranked() {
                lemma_ranks_given_spliced(self.rank_fn(), self.items(), key_pos(*key), Seq::empty());
            }
        }
        GMap { root, options: self.options.clone() }
    }
}


impl<K: Ord + Clone, V: Clone, R: Rank<K>> GMap<K, V, R> {
    /// Insert each pair, in order.
    pub fn extend(&mut self, pairs: Vec<(K, V)>)
        requires
            old(self).wf(),
            key_order::<K>(),
            clones_exact::<K, V>(),
            old(self).items().len() + pairs@.len() <= usize::MAX,
            forall|i: int| 0 <= i < pairs@.len() ==> old(self).rank_fn().accepts(&(#[trigger] pairs@[i]).0, 0),
        ensures
            final(self).wf(),
            final(self)@ == insert_all(old(self)@, pairs@),
            old(self).ranked() ==> final(self).ranked(),
            final(self).rank_fn() == old(self).rank_fn(),
            final(self).items().len() <= old(self).items().len() + pairs@.len(),
    {
        let ghost start = self@;
        let mut i: usize = 0;
        assert(pairs@.take(0) =~= Seq::<(K, V)>::empty());
        while i < pairs.len()
            invariant
                self.wf(),
                key_order::<K>(),
                clones_exact::<K, V>(),
                i <= pairs@.len(),
                self.items().len() <= old(self).items().len() + i,
                old(self).items().len() + pairs@.len() <= usize::MAX,
                self.rank_fn() == old(self).rank_fn(),
                forall|j: int| 0 <= j < pairs@.len() ==> old(self).rank_fn().accepts(&(#[trigger] pairs@[j]).0, 0),
                self@ == insert_all(start, pairs@.take(int_of(i))),
                start == old(self)@,
                old(self).ranked() ==> self.ranked(),
            decreases pairs@.len() - i,
        {
            let k = clone_of(&pairs[i].0);
            let v = clone_of(&pairs[i].1);
            proof {
                assert(pairs@.take(int_of(i) + 1).drop_last() =~= pairs@.take(int_of(i)));
            }
            *self = self.insert(k, v);
            i = i + 1;
        }
        assert(pairs@.take(int_of(i)) =~= pairs@);
    }

    /// The keys and values, in key order.
    pub fn iter(&self) -> (r: Vec<(&K, &V)>)
        requires
            self.wf(),
        ensures
            r@.len() == self.items().len(),
            forall|i: int| 0 <= i < r@.len() ==> *(#[trigger] r@[i]).0 == self.items()[i].key && *r@[i].1
                == self.items()[i].value,
            sorted(self.items()),
            key_order::<K>() ==> r@.len() == self@.len(),
            key_order::<K>() ==> forall|i: int| 0 <= i < r@.len() ==> self@.contains_key(*(#[trigger] r@[i]).0)
                && self@[*r@[i].0] == *r@[i].1,
            key_order::<K>() ==> forall|k: K| #[trigger] self@.contains_key(k) ==> exists|i: int| 0 <= i < r@.len()
                && *r@[i].0 == k,
    {
        let es = crate::tree::entry_list(&self.root);
        let mut out: Vec<(&K, &V)> = Vec::new();
        let mut i: usize = 0;
        while i < es.len()
            invariant
                matches_items(es@, self.items()),
                i <= es@.len(),
                out@.len() == i,
                forall|j: int| 0 <= j < i ==> *(#[trigger] out@[j]).0 == self.items()[j].key && *out@[j].1
                    == self.items()[j].value,
            decreases es@.len() - i,
        {
            let e = es[i];
            out.push((&e.key, e.value()));
            i = i + 1;
        }
        proof {
            if key_order::<K>() {
                let s = self.items();
                lemma_items_view(s);
                assert forall|j: int| 0 <= j < out@.len() implies self@.contains_key(*(#[trigger] out@[j]).0)
                    && self@[*out@[j].0] == *out@[j].1 by {
                    assert(items_map(s).contains_key(s[j].key));
                }
                assert forall|k: K| #[trigger] self@.contains_key(k) implies exists|j: int| 0 <= j < out@.len()
                    && *out@[j].0 == k by {
                    assert(items_map(s).contains_key(k));
                    let j = choose|j: int| 0 <= j < s.len() && s[j].key == k;
                    assert(*out@[j].0 == k);
                }
            }
        }
        out
    }

    /// The keys, in order.
    pub fn keys(&self) -> (r: Vec<&K>)
        requires
            self.wf(),
        ensures
            r@.len() == self.items().len(),
            forall|i: int| 0 <= i < r@.len() ==> *(#[trigger] r@[i]) == self.items()[i].key,
            sorted(self.items()),
            key_order::<K>() ==> r@.len() == self@.len(),
            key_order::<K>() ==> forall|i: int| 0 <= i < r@.len() ==> self@.contains_key(*(#[trigger] r@[i])),
            key_order::<K>() ==> forall|k: K| #[trigger] self@.contains_key(k) ==> exists|i: int| 0 <= i < r@.len()
                && *r@[i] == k,
    {
        let es = crate::tree::entry_list(&self.root);
        let mut out: Vec<&K> = Vec::new();
        let mut i: usize = 0;
        while i < es.len()
            invariant
                matches_items(es@, self.items()),
                i <= es@.len(),
                out@.len() == i,
                forall|j: int| 0 <= j < i ==> *(#[trigger] out@[j]) == self.items()[j].key,
            decreases es@.len() - i,
        {
            let e = es[i];
            out.push(&e.key);
            i = i + 1;
        }
        proof {
            if key_order::<K>() {
                let s = self.items();
                lemma_items_view(s);
                assert forall|j: int| 0 <= j < out@.len() implies self@.contains_key(*(#[trigger] out@[j])) by {
                    assert(items_map(s).contains_key(s[j].key));
                }
                assert forall|k: K| #[trigger] self@.contains_key(k) implies exists|j: int| 0 <= j < out@.len()
                    && *out@[j] == k by {
                    assert(items_map(s).contains_key(k));
                    let j = choose|j: int| 0 <= j < s.len() && s[j].key == k;
                    assert(*out@[j] == k);
                }
            }
        }
        out
    }

    /// The values, in key order.
    pub fn values(&self) -> (r: Vec<&V>)
        requires
            self.wf(),
        ensures
            r@.len() == self.items().len(),
            forall|i: int| 0 <= i < r@.len() ==> *(#[trigger] r@[i]) == self.items()[i].value,
            key_order::<K>() ==> r@.len() == self@.len(),
            key_order::<K>() ==> forall|i: int| 0 <= i < r@.len() ==> *(#[trigger] r@[i]) == self@[self.items()[i].key],
    {
        let es = crate::tree::entry_list(&self.root);
        let mut out: Vec<&V> = Vec::new();
        let mut i: usize = 0;
        while i < es.len()
            invariant
                matches_items(es@, self.items()),
                i <= es@.len(),
                out@.len() == i,
                forall|j: int| 0 <= j < i ==> *(#[trigger] out@[j]) == self.items()[j].value,
            decreases es@.len() - i,
        {
            let e = es[i];
            out.push(e.value());
            i = i + 1;
        }
        proof {
            if key_order::<K>() {
                let s = self.items();
                lemma_items_view(s);
                assert forall|j: int| 0 <= j < out@.len() implies *(#[trigger] out@[j]) == self@[s[j].key] by {
                    assert(items_map(s).contains_key(s[j].key));
                }
            }
        }
        out
    }
}


/// A map with no items has an empty view.
pub proof fn lemma_items_empty<K, V, R>(m: &GMap<K, V, R>)
    requires
        m.items().len() == 0,
    ensures
        m@ == Map::<K, V>::empty(),
{
    assert forall|k: K| !(#[trigger] m@.contains_key(k)) by {
        assert(lookup(m.items(), k) is None);
    }
    assert(m@ =~= Map::<K, V>::empty());
}

impl<K: Ord, V, R> GMap<K, V, R> {
    /// The items of a well-formed map are its entries in increasing key
    /// order, one per key of the map.
    pub proof fn lemma_items(&self)
        requires
            self.wf(),
        ensures
            sorted(self.items()),
            key_order::<K>() ==> self.items().len() == self@.len(),
            key_order::<K>() ==> forall|i: int| 0 <= i < self.items().len()
                ==> #[trigger] self@.contains_key(self.items()[i].key) && self@[self.items()[i].key] == self.items()[i].value,
            key_order::<K>() ==> forall|k: K| #[trigger] self@.contains_key(k) ==> exists|i: int|
                0 <= i < self.items().len() && self.items()[i].key == k,
    {
        if key_order::<K>() {
            let s = self.items();
            lemma_items_view(s);
            assert forall|i: int| 0 <= i < s.len() implies #[trigger] self@.contains_key(s[i].key)
                && self@[s[i].key] == s[i].value by {
                assert(items_map(s).contains_key(s[i].key));
            }
            assert forall|k: K| #[trigger] self@.contains_key(k) implies exists|i: int| 0 <= i < s.len()
                && s[i].key == k by {
                assert(items_map(s).contains_key(k));
            }
        }
    }

    /// The shape of the map's tree (see [`crate::tree::fingerprint`]).
    pub closed spec fn shape(&self) -> Seq<crate::tree::Tok<K, V>> {
        crate::tree::fingerprint(self.root)
    }

    /// The ranks of the keys of the map.
    pub open spec fn ranks(&self) -> Map<K, u32> {
        ranks_map(self.items())
    }

    /// History independence: two well-formed maps with the same keys,
    /// values and ranks have the same shape, whatever sequence of insertions
    /// and removals built each of them.
    pub proof fn lemma_history_independent(m1: &Self, m2: &Self)
        requires
            key_order::<K>(),
            m1.wf(),
            m2.wf(),
            m1@ == m2@,
            m1.ranks() == m2.ranks(),
        ensures
            m1.shape() == m2.shape(),
    {
        let s1 = m1.items();
        let s2 = m2.items();
        assert forall|k: K| #[trigger] find_item(s1, k) == find_item(s2, k) by {
            lemma_find_item(s1, k);
            lemma_find_item(s2, k);
            assert(items_map(s1).contains_key(k) == items_map(s2).contains_key(k));
            if lookup(s1, k) is Some {
                assert(items_map(s1)[k] == items_map(s2)[k]);
                assert(ranks_map(s1)[k] == ranks_map(s2)[k]);
            }
        }
        lemma_sorted_unique(s1, s2);
        crate::tree::lemma_history_independent(m1.root, m2.root);
    }
}


impl<K: Ord, V, R: Rank<K>> GMap<K, V, R> {
    /// The same contents give the same tree: two well-formed maps with the
    /// same keys and values, whose ranks their rank functions gave, have the
    /// same shape when the rank functions can give a key only one rank, and
    /// the same one. This holds whatever sequence of insertions and removals
    /// built each map.
    pub proof fn lemma_same_contents_same_shape(m1: &Self, m2: &Self)
        requires
            key_order::<K>(),
            m1.wf(),
            m2.wf(),
            m1.ranked(),
            m2.ranked(),
            forall|k: K, r1: u32, r2: u32|
                #[trigger] m1.rank_fn().gives(&k, 0, r1) && #[trigger] m2.rank_fn().gives(&k, 0, r2) ==> r1 == r2,
            m1@ == m2@,
        ensures
            m1.shape() == m2.shape(),
    {
        let s1 = m1.items();
        let s2 = m2.items();
        assert forall|k: K| #[trigger] lookup(s1, k) is Some == lookup(s2, k) is Some by {
            assert(items_map(s1).contains_key(k) == items_map(s2).contains_key(k));
        }
        assert forall|k: K| lookup(s1, k) is Some implies #[trigger] rank_lookup(s1, k) == rank_lookup(s2, k) by {
            assert(items_map(s1).contains_key(k) == items_map(s2).contains_key(k));
            lemma_rank_lookup_given(m1.rank_fn(), s1, k);
            lemma_rank_lookup_given(m2.rank_fn(), s2, k);
        }
        assert(ranks_map(s1) =~= ranks_map(s2));
        Self::lemma_history_independent(m1, m2);
    }
}

}
