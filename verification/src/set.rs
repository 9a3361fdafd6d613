//! An immutable, ordered set on a G-tree. Every update returns a new set
//! that shares structure with the old one.

use std::hash::Hash;
use vstd::prelude::*;

use crate::map::{GMap, Options, key_order, sorted};
use crate::rank::{Hashed, Rank};
use crate::tree::{ArrayItems, Item, Tok, Tree, clone_of, clones_exact, int_of, slice_wf};

verus! {

/// An immutable, ordered set. Every update returns a new set that shares
/// structure with the old one.
pub struct GSet<K, R = Hashed>(GMap<K, (), R>);

impl<K, R> Clone for GSet<K, R> {
    fn clone(&self) -> (r: Self)
        ensures
            r == *self,
    {
        GSet(self.0.clone())
    }
}

/// The set after inserting each key of `keys`, in order.
pub open spec fn insert_keys<K>(s: Set<K>, keys: Seq<K>) -> Set<K>
    decreases keys.len(),
{
    if keys.len() == 0 {
        s
    } else {
        insert_keys(s, keys.drop_last()).insert(keys.last())
    }
}

impl<K, R> GSet<K, R> {
    /// The map of keys to `()` behind the set.
    pub closed spec fn map(&self) -> GMap<K, (), R> {
        self.0
    }

    /// The keys of the set, in order, with their ranks.
    pub open spec fn items(&self) -> Seq<Item<K, ()>> {
        self.map().items()
    }

    /// The rank function.
    pub open spec fn rank_fn(&self) -> R {
        self.map().rank_fn()
    }
}

impl<K, R: Rank<K>> GSet<K, R> {
    /// Every key of the set has a rank that the rank function gives it.
    pub open spec fn ranked(&self) -> bool {
        self.map().ranked()
    }
}

impl<K: Ord, R> GSet<K, R> {
    /// The set is a well-formed G-tree of strictly increasing keys.
    pub open spec fn wf(&self) -> bool {
        self.map().wf()
    }

    /// The items of a well-formed set are its keys in increasing order, one
    /// per key of the set.
    pub proof fn lemma_items(&self)
        requires
            self.wf(),
        ensures
            sorted(self.items()),
            key_order::<K>() ==> self.items().len() == self@.len(),
            key_order::<K>() ==> forall|i: int| 0 <= i < self.items().len() ==> #[trigger] self@.contains(self.items()[i].key),
            key_order::<K>() ==> forall|k: K| #[trigger] self@.contains(k) ==> exists|i: int|
                0 <= i < self.items().len() && self.items()[i].key == k,
    {
        let m = self.map();
        m.lemma_items();
        if key_order::<K>() {
            assert forall|i: int| 0 <= i < self.items().len() implies #[trigger] self@.contains(self.items()[i].key) by {
                assert(m@.contains_key(m.items()[i].key));
            }
            assert forall|k: K| #[trigger] self@.contains(k) implies exists|i: int|
                0 <= i < self.items().len() && self.items()[i].key == k by {
                assert(m@.contains_key(k));
                let i = choose|i: int| 0 <= i < m.items().len() && m.items()[i].key == k;
                assert(self.items()[i].key == k);
            }
        }
    }

    /// The ranks of the keys of the set.
    pub open spec fn ranks(&self) -> Map<K, u32> {
        self.map().ranks()
    }

    /// The shape of the set's tree.
    pub open spec fn shape(&self) -> Seq<Tok<K, ()>> {
        self.map().shape()
    }

    /// History independence: two well-formed sets with the same keys and
    /// ranks have the same shape, whatever sequence of insertions and
    /// removals built each of them.
    pub proof fn lemma_history_independent(s1: &Self, s2: &Self)
        requires
            key_order::<K>(),
            s1.wf(),
            s2.wf(),
            s1@ == s2@,
            s1.ranks() == s2.ranks(),
        ensures
            s1.shape() == s2.shape(),
    {
        let m1 = s1.map();
        let m2 = s2.map();
        assert(m1@ =~= m2@) by {
            assert forall|k: K| m1@.contains_key(k) implies m1@[k] == m2@[k] by {
                assert(m2@.contains_key(k));
            }
        }
        GMap::lemma_history_independent(&m1, &m2);
    }
}

impl<K, R> View for GSet<K, R> {
    type V = Set<K>;

    open spec fn view(&self) -> Set<K> {
        self.map()@.dom()
    }
}

impl<K: Ord + Clone + Hash> Default for GSet<K> {
    fn default() -> (r: Self)
        ensures
            r.wf(),
            r.ranked(),
            r.items().len() == 0,
            r.rank_fn().k_view() == 8,
    {
        GSet(GMap::default())
    }
}

impl<K: Ord + Clone + Hash> GSet<K> {
    /// An empty set with hashed ranks and about 8 keys per node.
    pub fn new() -> (r: Self)
        ensures
            r.wf(),
            r.ranked(),
            r.items().len() == 0,
            r.rank_fn().k_view() == 8,
    {
        Self::default()
    }

    /// The set of the given keys.
    pub fn from_keys(keys: Vec<K>) -> (r: Self)
        requires
            key_order::<K>(),
            clone_exact_key::<K>(),
            keys@.len() <= usize::MAX,
        ensures
            r.wf(),
            r.ranked(),
            r@ == insert_keys(Set::empty(), keys@),
            r.items().len() <= keys@.len(),
            r.rank_fn().k_view() == 8,
    {
        let mut s = Self::new();
        proof {
            crate::map::lemma_items_empty(&s.0);
            assert(s@ =~= Set::<K>::empty());
        }
        s.extend(keys);
        s
    }
}

/// Key clones are exact (and so are those of `()`).
pub open spec fn clone_exact_key<K: Clone>() -> bool {
    clones_exact::<K, ()>()
}

impl<K: Ord + Clone, R: Rank<K>> GSet<K, R> {
    /// An empty set with the given options.
    pub fn with(options: Options<R, ArrayItems<K, ()>>) -> (r: Self)
        requires
            options.empty.0.entries@.len() == 0,
            slice_wf(options.empty.0),
        ensures
            r.wf(),
            r.ranked(),
            r.items().len() == 0,
            r.rank_fn() == options.rank,
    {
        GSet(GMap::with(options))
    }

    /// The tree behind the set.
    pub fn root(&self) -> (r: &Tree<K, ()>)
        ensures
            *r == self.map().root_view(),
    {
        self.0.root_ref()
    }

    pub fn len(&self) -> (r: usize)
        requires
            self.wf(),
        ensures
            r == self.items().len(),
            key_order::<K>() ==> r == self@.len(),
    {
        self.0.len()
    }

    pub fn is_empty(&self) -> (r: bool)
        requires
            self.wf(),
        ensures
            r == (self.items().len() == 0),
    {
        self.0.is_empty()
    }

    pub fn contains(&self, key: &K) -> (r: bool)
        requires
            self.wf(),
            key_order::<K>(),
        ensures
            r == self@.contains(*key),
    {
        self.0.contains_key(key)
    }

    /// A set with `key`. Returns a clone of this set if the key is present.
    pub fn insert(&self, key: K) -> (r: Self)
        requires
            self.wf(),
            key_order::<K>(),
            clone_exact_key::<K>(),
            self.items().len() < usize::MAX,
            self.rank_fn().accepts(&key, 0),
        ensures
            r.wf(),
            r@ == self@.insert(key),
            !self@.contains(key) ==> exists|rk: u32|
                self.rank_fn().gives(&key, 0, rk) && r.ranks() == self.ranks().insert(key, rk),
            self.ranked() ==> r.ranked(),
            r.rank_fn() == self.rank_fn(),
            r.items().len() == self.items().len() + if self@.contains(key) { 0int } else { 1int },
            self@.contains(key) ==> r == *self,
    {
        if self.contains(&key) {
            return self.clone();
        }
        let r = GSet(self.0.insert(key, ()));
        assert(r@ =~= self@.insert(key));
        proof {
            let rk = choose|rk: u32| self.0.rank_fn().gives(&key, 0, rk) && r.0.ranks() == self.0.ranks().insert(key, rk);
            assert(self.rank_fn().gives(&key, 0, rk) && r.ranks() == self.ranks().insert(key, rk));
        }
        r
    }

    /// A set without `key`. Returns a clone of this set if the key is absent.
    pub fn remove(&self, key: &K) -> (r: Self)
        requires
            self.wf(),
            key_order::<K>(),
            clone_exact_key::<K>(),
        ensures
            r.wf(),
            r@ == self@.remove(*key),
            r.ranks() == self.ranks().remove(*key),
            self.ranked() ==> r.ranked(),
            r.rank_fn() == self.rank_fn(),
            r.items().len() == self.items().len() - if self@.contains(*key) { 1int } else { 0int },
            !self@.contains(*key) ==> r == *self,
    {
        let r = GSet(self.0.remove(key));
        assert(r@ =~= self@.remove(*key));
        r
    }

    /// The keys, in order.
    pub fn iter(&self) -> (r: Vec<&K>)
        requires
            self.wf(),
        ensures
            r@.len() == self.items().len(),
            forall|i: int| 0 <= i < r@.len() ==> *(#[trigger] r@[i]) == self.items()[i].key,
            sorted(self.items()),
            key_order::<K>() ==> r@.len() == self@.len(),
            key_order::<K>() ==> forall|i: int| 0 <= i < r@.len() ==> self@.contains(*(#[trigger] r@[i])),
            key_order::<K>() ==> forall|k: K| #[trigger] self@.contains(k) ==> exists|i: int| 0 <= i < r@.len()
                && *r@[i] == k,
    {
        let r = self.0.keys();
        proof {
            if key_order::<K>() {
                assert forall|k: K| #[trigger] self@.contains(k) implies exists|i: int| 0 <= i < r@.len()
                    && *r@[i] == k by {
                    assert(self.0@.contains_key(k));
                }
            }
        }
        r
    }

    /// Insert each key, in order.
    pub fn extend(&mut self, keys: Vec<K>)
        requires
            old(self).wf(),
            key_order::<K>(),
            clone_exact_key::<K>(),
            old(self).items().len() + keys@.len() <= usize::MAX,
            forall|i: int| 0 <= i < keys@.len() ==> old(self).rank_fn().accepts(&(#[trigger] keys@[i]), 0),
        ensures
            final(self).wf(),
            final(self)@ == insert_keys(old(self)@, keys@),
            old(self).ranked() ==> final(self).ranked(),
            final(self).rank_fn() == old(self).rank_fn(),
            final(self).items().len() <= old(self).items().len() + keys@.len(),
    {
        let ghost start = self@;
        let mut i: usize = 0;
        assert(keys@.take(0) =~= Seq::<K>::empty());
        while i < keys.len()
            invariant
                self.wf(),
                key_order::<K>(),
                clone_exact_key::<K>(),
                i <= keys@.len(),
                self.items().len() <= old(self).items().len() + i,
                old(self).items().len() + keys@.len() <= usize::MAX,
                self.rank_fn() == old(self).rank_fn(),
                forall|j: int| 0 <= j < keys@.len() ==> old(self).rank_fn().accepts(&(#[trigger] keys@[j]), 0),
                self@ == insert_keys(start, keys@.take(int_of(i))),
                start == old(self)@,
                old(self).ranked() ==> self.ranked(),
            decreases keys@.len() - i,
        {
            let k = clone_of(&keys[i]);
            proof {
                assert(keys@.take(int_of(i) + 1).drop_last() =~= keys@.take(int_of(i)));
            }
            *self = self.insert(k);
            i = i + 1;
        }
        assert(keys@.take(int_of(i)) =~= keys@);
    }
}


impl<K: Ord, R: Rank<K>> GSet<K, R> {
    /// The same keys give the same tree: two well-formed sets with the same
    /// keys, whose ranks their rank functions gave, have the same shape when
    /// the rank functions can give a key only one rank, and the same one.
    /// This holds whatever sequence of insertions and removals built each set.
    pub proof fn lemma_same_keys_same_shape(s1: &Self, s2: &Self)
        requires
            key_order::<K>(),
            s1.wf(),
            s2.wf(),
            s1.ranked(),
            s2.ranked(),
            forall|k: K, r1: u32, r2: u32|
                #[trigger] s1.rank_fn().gives(&k, 0, r1) && #[trigger] s2.rank_fn().gives(&k, 0, r2) ==> r1 == r2,
            s1@ == s2@,
        ensures
            s1.shape() == s2.shape(),
    {
        let m1 = s1.map();
        let m2 = s2.map();
        assert(m1@ =~= m2@) by {
            assert forall|k: K| m1@.contains_key(k) implies m1@[k] == m2@[k] by {
                assert(m2@.contains_key(k));
            }
        }
        assert forall|k: K, r1: u32, r2: u32|
            #[trigger] m1.rank_fn().gives(&k, 0, r1) && #[trigger] m2.rank_fn().gives(&k, 0, r2) implies r1 == r2 by {
            assert(s1.rank_fn().gives(&k, 0, r1) && s2.rank_fn().gives(&k, 0, r2));
        }
        GMap::lemma_same_contents_same_shape(&m1, &m2);
    }
}

}
