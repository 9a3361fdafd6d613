//! A G-tree used as a sequence: positions replace keys, and node sizes guide
//! the search. Ranks are random, since there is no key to hash.

use std::ops::{Bound, RangeBounds};
use std::sync::Arc;
use vstd::prelude::*;

use crate::rank::{Random, Rank, random};
use crate::tree::{
    ArrayItems, Entry, Item, Tree, int_of, len_of, clone_of, clones_exact, entries, item_of, lemma_entry_left_len,
    lemma_node_wf, lemma_root_len, lemma_run_cons, lemma_run_items_append, lemma_run_wf_at, lemma_size_field,
    lemma_weight_zero, lemma_entries_weight, lemma_entries_weight_append, matches_items, node, opt_seq,
    root_entries, root_right, run_items, share, single, size, slice_wf, top, tree_items, tree_len, tree_wf,
    zip, Items,
};

verus! {

/// A G-tree holding a sequence: its keys are the elements.
pub type ListTree<T> = Tree<T, ()>;

/// The elements of a tree, in order.
pub open spec fn elements<T>(t: ListTree<T>) -> Seq<T> {
    tree_items(t).map_values(|x: Item<T, ()>| x.key)
}

/// The entry at index `i`.
pub fn at<T: Clone>(t: &ListTree<T>, i: usize) -> (r: Option<&Entry<T, ()>>)
    requires
        tree_wf(*t),
    ensures
        i < tree_len(*t) ==> (r matches Some(e) && e.key == tree_items(*t)[i as int].key),
        i >= tree_len(*t) ==> r is None,
    decreases tree_len(*t),
{
    let n = match t {
        None => {
            return None;
        },
        Some(n) => n,
    };
    let ghost es = root_entries(*t);
    let ghost rank = n.rank;
    let ghost s = tree_items(*t);
    proof {
        lemma_root_len(*t);
    }
    let items = n.items.iter();
    let mut k = i;
    let mut j: usize = 0;
    while j < items.len()
        invariant
            items@ == es,
            es == root_entries(*t),
            rank == t->0.rank,
            s == tree_items(*t),
            s == run_items(es, rank) + tree_items(root_right(*t)),
            tree_wf(*t),
            j <= es.len(),
            i == run_items(es.take(j as int), rank).len() + k,
        decreases es.len() - j,
    {
        let e = &items[j];
        proof {
            lemma_run_wf_at(es, rank, j as int);
            lemma_size_field(e.left);
            lemma_entry_left_len(*t, j as int);
            assert(es =~= es.take(j as int) + (seq![es[j as int]] + es.skip(j as int + 1)));
            lemma_run_items_append(es.take(j as int), seq![es[j as int]] + es.skip(j as int + 1), rank);
            lemma_run_cons(es[j as int], es.skip(j as int + 1), rank);
            assert(s =~= run_items(es.take(j as int), rank) + tree_items(e.left) + seq![item_of(*e, rank)]
                + run_items(es.skip(j as int + 1), rank) + tree_items(root_right(*t)));
        }
        let left = size(&e.left);
        if k < left {
            let r = at(&e.left, k);
            return r;
        }
        if k == left {
            return Some(e);
        }
        k = k - (left + 1);
        proof {
            assert(es.take(j as int + 1) =~= es.take(j as int) + seq![es[j as int]]);
            lemma_run_items_append(es.take(j as int), seq![es[j as int]], rank);
            lemma_run_cons(es[j as int], Seq::empty(), rank);
            assert(seq![es[j as int]] + Seq::<Entry<T, ()>>::empty() =~= seq![es[j as int]]);
        }
        j = j + 1;
    }
    proof {
        assert(es.take(j as int) =~= es);
        lemma_size_field(root_right(*t));
    }
    at(&n.right, k)
}


/// The smaller of two integers.
pub open spec fn min(a: int, b: int) -> int {
    if a <= b {
        a
    } else {
        b
    }
}

/// `res` is `t` split after its first `i` keys (all of them if it has
/// fewer): two well-formed trees of no higher rank.
pub open spec fn split_after<T>(t: ListTree<T>, i: int, res: (ListTree<T>, ListTree<T>)) -> bool {
    &&& tree_wf(res.0)
    &&& tree_wf(res.1)
    &&& top(res.0) <= top(t)
    &&& top(res.1) <= top(t)
    &&& tree_items(res.0) == tree_items(t).take(min(i, tree_len(t) as int))
    &&& tree_items(res.1) == tree_items(t).skip(min(i, tree_len(t) as int))
}

/// Split a sequence into its first `i` elements and the rest.
pub fn split_at<T: Clone>(t: &ListTree<T>, i: usize) -> (r: (ListTree<T>, ListTree<T>))
    requires
        tree_wf(*t),
        clones_exact::<T, ()>(),
    ensures
        split_after(*t, i as int, r),
        i == 0 ==> r == (None::<Arc<crate::tree::Node<T, ()>>>, *t),
        i >= tree_len(*t) ==> r == (*t, None::<Arc<crate::tree::Node<T, ()>>>),
    decreases tree_len(*t),
{
    let n = match t {
        None => {
            assert(tree_items(*t) =~= Seq::<Item<T, ()>>::empty());
            assert(tree_items(*t).take(0) =~= Seq::<Item<T, ()>>::empty());
            assert(tree_items(*t).skip(0) =~= Seq::<Item<T, ()>>::empty());
            return (None, None);
        },
        Some(n) => n,
    };
    let ghost es = root_entries(*t);
    let ghost rank = n.rank;
    let ghost s = tree_items(*t);
    proof {
        lemma_root_len(*t);
        lemma_size_field(*t);
        lemma_entries_weight(es, rank);
        lemma_size_field(root_right(*t));
    }
    if i == 0 {
        assert(s.take(0) =~= Seq::<Item<T, ()>>::empty());
        assert(s.skip(0) =~= s);
        return (None, share(t));
    }
    if i >= n.size {
        assert(s.take(s.len() as int) =~= s);
        assert(s.skip(s.len() as int) =~= Seq::<Item<T, ()>>::empty());
        return (share(t), None);
    }
    let items = n.items.iter();
    let mut k = i;
    let mut j: usize = 0;
    while j < items.len()
        invariant
            items@ == es,
            es == root_entries(*t),
            n.items.0.entries@ == es,
            rank == t->0.rank,
            rank == n.rank,
            s == tree_items(*t),
            s == run_items(es, rank) + tree_items(root_right(*t)),
            tree_wf(*t),
            slice_wf(n.items.0),
            clones_exact::<T, ()>(),
            j <= es.len(),
            i == run_items(es.take(j as int), rank).len() + k,
            0 < i < s.len(),
        decreases es.len() - j,
    {
        let e = &items[j];
        proof {
            lemma_run_wf_at(es, rank, j as int);
            lemma_size_field(e.left);
            lemma_entry_left_len(*t, j as int);
            assert(es =~= es.take(j as int) + (seq![es[j as int]] + es.skip(j as int + 1)));
            lemma_run_items_append(es.take(j as int), seq![es[j as int]] + es.skip(j as int + 1), rank);
            lemma_run_cons(es[j as int], es.skip(j as int + 1), rank);
        }
        let left = size(&e.left);
        if k <= left {
            // The cut falls inside (or right after) e's left subtree.
            let (l, r) = split_at(&e.left, k);
            let (lo, _, hi) = n.items.0.cut(j, true);
            let res = split_step(t, j, k, e, l, r, lo, hi);
            return res;
        }
        k = k - (left + 1);
        proof {
            assert(es.take(j as int + 1) =~= es.take(j as int) + seq![es[j as int]]);
            lemma_run_items_append(es.take(j as int), seq![es[j as int]], rank);
            lemma_run_cons(es[j as int], Seq::empty(), rank);
            assert(seq![es[j as int]] + Seq::<Entry<T, ()>>::empty() =~= seq![es[j as int]]);
        }
        j = j + 1;
    }
    proof {
        assert(es.take(j as int) =~= es);
    }
    let (l, r) = split_at(&n.right, k);
    proof {
        lemma_size_field(l);
        lemma_weight_zero(es, rank);
    }
    let left = node(n.rank, n.items.clone(), l);
    proof {
        lemma_node_wf(left);
        let a = run_items(es, rank);
        let b = tree_items(root_right(*t));
        assert(tree_items(left) == a + tree_items(l));
        assert(tree_items(left) =~= s.take(i as int));
        assert(tree_items(r) =~= s.skip(i as int));
    }
    (left, r)
}

/// The step of [`split_at`] that cuts inside the left subtree of entry `j`
/// of the root, `k` keys into it.
fn split_step<T: Clone>(
    t: &ListTree<T>,
    j: usize,
    k: usize,
    e: &Entry<T, ()>,
    l: ListTree<T>,
    r: ListTree<T>,
    lo: crate::tree::Slice<T, ()>,
    hi: crate::tree::Slice<T, ()>,
) -> (res: (ListTree<T>, ListTree<T>))
    requires
        tree_wf(*t),
        t is Some,
        clones_exact::<T, ()>(),
        0 <= j < root_entries(*t).len(),
        *e == root_entries(*t)[j as int],
        k <= tree_len(e.left),
        split_after(e.left, k as int, (l, r)),
        lo.entries@ == root_entries(*t).take(j as int),
        hi.entries@ == root_entries(*t).skip(j as int + 1),
        slice_wf(lo),
        slice_wf(hi),
    ensures
        split_after(*t, run_items(root_entries(*t).take(j as int), t->0.rank).len() + k, res),
{
    let n = match t {
        Some(n) => n,
        None => {
            return (None, None);
        },
    };
    let ghost es = root_entries(*t);
    let ghost rank = n.rank;
    let ghost s = tree_items(*t);
    let ghost a = run_items(es.take(j as int), rank);
    let ghost x = item_of(*e, rank);
    let ghost c = run_items(es.skip(j as int + 1), rank) + tree_items(root_right(*t));
    proof {
        lemma_root_len(*t);
        lemma_size_field(*t);
        lemma_run_wf_at(es, rank, j as int);
        assert(es =~= es.take(j as int) + (seq![es[j as int]] + es.skip(j as int + 1)));
        lemma_run_items_append(es.take(j as int), seq![es[j as int]] + es.skip(j as int + 1), rank);
        lemma_run_cons(es[j as int], es.skip(j as int + 1), rank);
        lemma_entries_weight(es, rank);
        assert(es.take(j as int) + es.skip(j as int) =~= es);
        crate::tree::lemma_run_items_append(es.take(j as int), es.skip(j as int), rank);
        assert(es.skip(j as int) =~= seq![es[j as int]] + es.skip(j as int + 1));
        lemma_entries_weight(es.take(j as int), rank);
        lemma_entries_weight(es.skip(j as int + 1), rank);
        lemma_size_field(r);
        lemma_size_field(l);
        assert(s == a + tree_items(e.left) + seq![x] + c);
    }
    let ne = Entry { key: clone_of(&e.key), value: e.value.clone(), left: r };
    let tail = ArrayItems(hi).unshift(ne);
    proof {
        lemma_run_cons(ne, hi.entries@, rank);
        lemma_entries_weight(tail.0.entries@, rank);
        lemma_size_field(root_right(*t));
    }
    let right = node(n.rank, tail, share(&n.right));
    let left = node(n.rank, ArrayItems(lo), l);
    proof {
        lemma_weight_zero(tail.0.entries@, rank);
        lemma_node_wf(right);
        lemma_weight_zero(lo.entries@, rank);
        if lo.weight != 0 {
            lemma_node_wf(left);
        }
        let m = a.len() + k;
        let le = tree_items(e.left);
        assert(tree_items(left) =~= a + le.take(k as int));
        assert(tree_items(right) =~= le.skip(k as int) + seq![x] + c);
        assert(tree_items(left) =~= s.take(m));
        assert(tree_items(right) =~= s.skip(m));
    }
    (left, right)
}


// ---------------------------------------------------------------------------
// The list
// ---------------------------------------------------------------------------

/// One end of a range of positions, as [`Bound`] gives it.
pub enum Limit {
    Included(usize),
    Excluded(usize),
    Unbounded,
}

/// The start of a range, as a [`Limit`].
///
/// Calls `RangeBounds::start_bound`; which limit comes back depends on the
/// range's implementation, so nothing is promised of it.
#[verifier::external_body]
fn start_of<B: RangeBounds<usize>>(range: &B) -> Limit {
    match range.start_bound() {
        Bound::Included(&i) => Limit::Included(i),
        Bound::Excluded(&i) => Limit::Excluded(i),
        Bound::Unbounded => Limit::Unbounded,
    }
}

/// The end of a range, as a [`Limit`].
///
/// Calls `RangeBounds::end_bound`; which limit comes back depends on the
/// range's implementation, so nothing is promised of it.
#[verifier::external_body]
fn end_of<B: RangeBounds<usize>>(range: &B) -> Limit {
    match range.end_bound() {
        Bound::Included(&i) => Limit::Included(i),
        Bound::Excluded(&i) => Limit::Excluded(i),
        Bound::Unbounded => Limit::Unbounded,
    }
}

/// The first position a start limit admits.
pub open spec fn start_index(l: Limit) -> int {
    match l {
        Limit::Included(i) => i as int,
        Limit::Excluded(i) => i + 1,
        Limit::Unbounded => 0,
    }
}

/// The position just after the last one an end limit admits, in a sequence
/// of length `n`.
pub open spec fn end_index(l: Limit, n: int) -> int {
    match l {
        Limit::Included(i) => i + 1,
        Limit::Excluded(i) => i as int,
        Limit::Unbounded => n,
    }
}

/// The elements of `s` from `start` up to `end`, each clamped to its length;
/// nothing if `start` is past `end`.
pub open spec fn clamped<T>(s: Seq<T>, start: int, end: int) -> Seq<T> {
    let e = min(end, s.len() as int);
    let b = min(start, s.len() as int);
    if b <= e {
        s.subrange(b, e)
    } else {
        Seq::empty()
    }
}

/// The limits are within the machine's range: an excluded start or an
/// included end is below the largest `usize`.
pub open spec fn limits_ok(start: Limit, end: Limit) -> bool {
    &&& (start matches Limit::Excluded(i) ==> i < usize::MAX)
    &&& (end matches Limit::Included(i) ==> i < usize::MAX)
}

/// An immutable sequence with logarithmic positional updates.
pub struct GList<T> {
    pub root: ListTree<T>,
    rank: Arc<Random>,
}

impl<T> Clone for GList<T> {
    fn clone(&self) -> (r: Self)
        ensures
            r == *self,
    {
        GList { root: share(&self.root), rank: self.rank.clone() }
    }
}

impl<T> GList<T> {
    /// The tree behind the list.
    pub closed spec fn tree(&self) -> ListTree<T> {
        self.root
    }

    /// The list is a well-formed G-tree with a usable rank function.
    pub closed spec fn wf(&self) -> bool {
        tree_wf(self.root) && self.rank.k_view() >= 2
    }

    /// The rank function that gives new elements their ranks.
    pub closed spec fn rank_fn(&self) -> Random {
        *self.rank
    }

    /// The expected number of elements per node.
    pub closed spec fn k(&self) -> u32 {
        self.rank.k_view()
    }
}

impl<T> View for GList<T> {
    type V = Seq<T>;

    open spec fn view(&self) -> Seq<T> {
        elements(self.tree())
    }
}

impl<T: Clone> Default for GList<T> {
    fn default() -> (r: Self)
        ensures
            r.wf(),
            r@ == Seq::<T>::empty(),
            r.k() == 8,
    {
        Self::with_k(8)
    }
}

impl<T: Clone> GList<T> {
    /// An empty list with about 8 elements per node.
    pub fn new() -> (r: Self)
        ensures
            r.wf(),
            r@ == Seq::<T>::empty(),
            r.k() == 8,
    {
        Self::default()
    }

    /// An empty list; `k` is the expected number of elements per node.
    pub fn with_k(k: u32) -> (r: Self)
        requires
            k >= 2,
        ensures
            r.wf(),
            r@ == Seq::<T>::empty(),
            r.k() == k,
    {
        let r = GList { root: None, rank: Arc::new(random(k)) };
        assert(r@ =~= Seq::<T>::empty());
        r
    }

    /// The list of the elements of `v`, in order.
    pub fn from_vec(v: Vec<T>) -> (r: Self)
        requires
            clones_exact::<T, ()>(),
        ensures
            r.wf(),
            r@ == v@,
    {
        let mut list = Self::new();
        let mut i: usize = 0;
        while i < v.len()
            invariant
                list.wf(),
                clones_exact::<T, ()>(),
                i <= v@.len(),
                list@ == v@.take(i as int),
            decreases v@.len() - i,
        {
            proof {
                lemma_len(&list);
            }
            list = list.push_back(clone_of(&v[i]));
            i = i + 1;
            assert(list@ =~= v@.take(i as int));
        }
        assert(v@.take(i as int) =~= v@);
        list
    }

    /// A list with the same rank function over another tree.
    fn with(&self, root: ListTree<T>) -> (r: Self)
        ensures
            r.tree() == root,
            r.k() == self.k(),
            self.wf() && tree_wf(root) ==> r.wf(),
    {
        GList { root, rank: self.rank.clone() }
    }

    /// A one-element tree for `x`, with a random rank.
    fn one(&self, x: T) -> (r: ListTree<T>)
        requires
            self.wf(),
            clones_exact::<T, ()>(),
        ensures
            tree_wf(r),
            elements(r) == seq![x],
            tree_len(r) == 1,
    {
        let rank = self.rank.rank(&x, 0);
        let empty = ArrayItems::new();
        let r = single(clone_of(&x), (), rank, &empty);
        assert(elements(r) =~= seq![x]);
        r
    }

    pub fn len(&self) -> (r: usize)
        requires
            self.wf(),
        ensures
            r == self@.len(),
    {
        proof {
            lemma_size_field(self.root);
        }
        size(&self.root)
    }

    pub fn is_empty(&self) -> (r: bool)
        requires
            self.wf(),
        ensures
            r == (self@.len() == 0),
    {
        proof {
            if self.root is Some {
                lemma_root_len(self.root);
                crate::tree::lemma_run_last(root_entries(self.root), self.root->0.rank);
            }
        }
        self.root.is_none()
    }

    /// The element at index `i`.
    pub fn get(&self, i: usize) -> (r: Option<&T>)
        requires
            self.wf(),
        ensures
            r is Some <==> i < self@.len(),
            r matches Some(x) ==> *x == self@[i as int],
    {
        match at(&self.root, i) {
            Some(e) => Some(&e.key),
            None => None,
        }
    }

    pub fn push_back(&self, x: T) -> (r: Self)
        requires
            self.wf(),
            clones_exact::<T, ()>(),
            self@.len() < usize::MAX,
        ensures
            r.wf(),
            r@ == self@.push(x),
            r.k() == self.k(),
    {
        let one = self.one(x);
        proof {
            lemma_len(self);
        }
        let r = self.with(zip(&self.root, &one));
        proof {
            lemma_elements_append(tree_items(self.root), tree_items(one));
        }
        assert(r@ =~= self@.push(x));
        r
    }

    pub fn push_front(&self, x: T) -> (r: Self)
        requires
            self.wf(),
            clones_exact::<T, ()>(),
            self@.len() < usize::MAX,
        ensures
            r.wf(),
            r@ == seq![x] + self@,
            r.k() == self.k(),
    {
        let one = self.one(x);
        proof {
            lemma_len(self);
        }
        let r = self.with(zip(&one, &self.root));
        proof {
            lemma_elements_append(tree_items(one), tree_items(self.root));
        }
        assert(r@ =~= seq![x] + self@);
        r
    }

    /// Insert `x` so that it ends up at index `i` (at the end if `i` is past
    /// it).
    pub fn insert(&self, i: usize, x: T) -> (r: Self)
        requires
            self.wf(),
            clones_exact::<T, ()>(),
            self@.len() < usize::MAX,
        ensures
            r.wf(),
            r@ == self@.take(min(int_of(i), len_of(self@))) + seq![x] + self@.skip(min(int_of(i), len_of(self@))),
            r.k() == self.k(),
    {
        let (l, rr) = split_at(&self.root, i);
        let one = self.one(x);
        proof {
            lemma_len(self);
            let s = tree_items(self.root);
            let m = min(int_of(i), len_of(s));
            assert(s =~= s.take(m) + s.skip(m));
        }
        let lo = zip(&l, &one);
        let r = self.with(zip(&lo, &rr));
        proof {
            let s = tree_items(self.root);
            let m = min(int_of(i), len_of(s));
            lemma_elements_append(tree_items(l), tree_items(one));
            lemma_elements_append(tree_items(lo), tree_items(rr));
            assert(self@.take(m) =~= tree_items(l).map_values(|x: Item<T, ()>| x.key));
            assert(self@.skip(m) =~= tree_items(rr).map_values(|x: Item<T, ()>| x.key));
            assert(r@ =~= self@.take(m) + seq![x] + self@.skip(m));
        }
        r
    }

    /// Remove the element at index `i`, if any.
    pub fn remove(&self, i: usize) -> (r: Self)
        requires
            self.wf(),
            clones_exact::<T, ()>(),
        ensures
            r.wf(),
            r@ == if i < self@.len() { self@.remove(int_of(i)) } else { self@ },
            r.k() == self.k(),
    {
        let (l, rr) = split_at(&self.root, i);
        let (_, rest) = split_at(&rr, 1);
        let r = self.with(zip(&l, &rest));
        proof {
            let s = tree_items(self.root);
            let m = min(int_of(i), len_of(s));
            assert(s =~= s.take(m) + s.skip(m));
            if i < s.len() {
                assert(tree_items(rest) =~= s.skip(m + 1));
                assert(r@ =~= self@.remove(int_of(i)));
            } else {
                assert(tree_items(rest) =~= Seq::<Item<T, ()>>::empty());
                assert(r@ =~= self@);
            }
        }
        r
    }

    /// The elements from `start` up to `end`, clamped to the list.
    pub fn slice_limits(&self, start: Limit, end: Limit) -> (r: Self)
        requires
            self.wf(),
            clones_exact::<T, ()>(),
        ensures
            r.wf(),
            r@ == clamped(self@, start_index(start), end_index(end, self@.len() as int)),
            r.k() == self.k(),
    {
        let n = self.len();
        // The first and the past-the-end positions, each clamped to the list.
        let s = match start {
            Limit::Included(i) => if i < n { i } else { n },
            Limit::Excluded(i) => if i < n { i + 1 } else { n },
            Limit::Unbounded => 0,
        };
        let e = match end {
            Limit::Included(i) => if i < n { i + 1 } else { n },
            Limit::Excluded(i) => if i < n { i } else { n },
            Limit::Unbounded => n,
        };
        let (head, _) = split_at(&self.root, e);
        let (_, tail) = split_at(&head, s);
        let r = self.with(tail);
        proof {
            let sq = tree_items(self.root);
            let ee = min(end_index(end, sq.len() as int), sq.len() as int);
            let bb = min(start_index(start), sq.len() as int);
            assert(ee == e && bb == s);
            if bb <= ee {
                assert(tree_items(tail) =~= sq.subrange(bb, ee));
            } else {
                assert(tree_items(tail) =~= Seq::<Item<T, ()>>::empty());
            }
            assert(r@ =~= clamped(self@, start_index(start), end_index(end, self@.len() as int)));
        }
        r
    }

    /// The elements in `range`, as a new list: [`GList::slice_limits`] of
    /// the range's start and end bounds.
    pub fn slice<B: RangeBounds<usize>>(&self, range: B) -> (r: Self)
        requires
            self.wf(),
            clones_exact::<T, ()>(),
        ensures
            r.wf(),
            r.k() == self.k(),
            exists|start: Limit, end: Limit|
                r@ == clamped(self@, start_index(start), end_index(end, self@.len() as int)),
    {
        let start = start_of(&range);
        let end = end_of(&range);
        self.slice_limits(start, end)
    }

    pub fn concat(&self, other: &Self) -> (r: Self)
        requires
            self.wf(),
            other.wf(),
            self@.len() + other@.len() <= usize::MAX,
            clones_exact::<T, ()>(),
        ensures
            r.wf(),
            r@ == self@ + other@,
            r.k() == self.k(),
    {
        let r = self.with(zip(&self.root, &other.root));
        assert(r@ =~= self@ + other@);
        r
    }

    /// Split into the first `i` elements and the rest.
    pub fn split_at(&self, i: usize) -> (r: (Self, Self))
        requires
            self.wf(),
            clones_exact::<T, ()>(),
        ensures
            r.0.wf(),
            r.1.wf(),
            r.0@ == self@.take(min(int_of(i), len_of(self@))),
            r.1@ == self@.skip(min(int_of(i), len_of(self@))),
            r.0.k() == self.k(),
            r.1.k() == self.k(),
    {
        let (l, rr) = split_at(&self.root, i);
        let r = (self.with(l), self.with(rr));
        assert(r.0@ =~= self@.take(min(int_of(i), len_of(self@))));
        assert(r.1@ =~= self@.skip(min(int_of(i), len_of(self@))));
        r
    }

    /// The elements, in order.
    pub fn iter(&self) -> (r: Vec<&T>)
        requires
            self.wf(),
        ensures
            r@.len() == self@.len(),
            forall|i: int| 0 <= i < r@.len() ==> *(#[trigger] r@[i]) == self@[i],
    {
        let es = crate::tree::entry_list(&self.root);
        let mut out: Vec<&T> = Vec::new();
        let mut i: usize = 0;
        while i < es.len()
            invariant
                matches_items(es@, tree_items(self.root)),
                i <= es@.len(),
                out@.len() == i,
                forall|j: int| 0 <= j < i ==> *(#[trigger] out@[j]) == tree_items(self.root)[j].key,
            decreases es@.len() - i,
        {
            let e = es[i];
            out.push(&e.key);
            i = i + 1;
        }
        out
    }

    /// The rank function.
    pub fn rank(&self) -> (r: &Random)
        ensures
            *r == self.rank_fn(),
            r.k_view() == self.k(),
    {
        &self.rank
    }
}

/// The length of a list is that of its tree.
proof fn lemma_len<T>(list: &GList<T>)
    ensures
        list@.len() == tree_len(list.tree()),
{
}

/// The elements of a concatenation of items are the concatenation of their
/// elements.
proof fn lemma_elements_append<T>(a: Seq<Item<T, ()>>, b: Seq<Item<T, ()>>)
    ensures
        (a + b).map_values(|x: Item<T, ()>| x.key) == a.map_values(|x: Item<T, ()>| x.key) + b.map_values(
            |x: Item<T, ()>| x.key,
        ),
{
    assert((a + b).map_values(|x: Item<T, ()>| x.key) =~= a.map_values(|x: Item<T, ()>| x.key) + b.map_values(
        |x: Item<T, ()>| x.key,
    ));
}

}
