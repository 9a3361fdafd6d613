//! Geometric search trees (G-trees).
//!
//! A G-tree is a randomised, history-independent search tree. Every key has a
//! geometrically distributed `rank`. A G-node holds the maximal run of keys
//! that share the highest rank in its subtree, each paired with the subtree of
//! the keys that precede it, plus one `right` subtree of the keys that follow
//! the last one. The keys of a node live in an [`ArrayItems`] collection.
//!
//! Everything here is immutable and shares structure through [`Arc`]. The two
//! structural operations are [`unzip`] (split a tree around a position) and
//! [`zip`] (join two ordered trees); insertion and deletion are compositions
//! of them.

use std::cmp::Ordering;
use std::sync::Arc;
use vstd::prelude::*;

verus! {

/// A possibly empty G-tree.
pub type Tree<K, V> = Option<Arc<Node<K, V>>>;

/// A G-node: the keys of one rank, plus the subtree of the keys after them.
pub struct Node<K, V> {
    pub rank: u32,
    pub items: ArrayItems<K, V>,
    pub right: Tree<K, V>,
    pub size: usize,
}

/// A key, its value, and the subtree of all keys that precede it.
pub struct Entry<K, V> {
    pub key: K,
    pub value: Value<K, V>,
    pub left: Tree<K, V>,
}

/// What an entry holds: a value of its own, or the entry of another tree
/// that it stands for.
pub enum Value<K, V> {
    Own(V),
    Outer(Arc<Entry<K, V>>),
}

/// A sorted, shared run of entries with its weight: the storage behind
/// [`ArrayItems`].
pub struct Slice<K, V> {
    pub entries: Arc<Vec<Entry<K, V>>>,
    pub weight: usize,
}

/// The inner set of a G-node, backed by a sorted array.
pub struct ArrayItems<K, V>(pub Slice<K, V>);

/// One key of a tree as the model sees it: the key, its value, and the rank
/// of the node that holds it.
pub struct Item<K, V> {
    pub key: K,
    pub value: V,
    pub rank: u32,
}

// ---------------------------------------------------------------------------
// The model
// ---------------------------------------------------------------------------

/// The value an entry stands for, following outer entries.
pub open spec fn value_of<K, V>(v: Value<K, V>) -> V
    decreases v,
{
    match v {
        Value::Own(x) => x,
        Value::Outer(e) => value_of(e.value),
    }
}

/// The number of keys an entry counts for, as its stored sizes say.
pub open spec fn entry_weight<K, V>(e: Entry<K, V>) -> nat
    decreases e,
{
    size_field(e.left) + match e.value {
        Value::Own(_) => 1nat,
        Value::Outer(o) => entry_weight(*o),
    }
}

/// The size a tree records at its root.
pub open spec fn size_field<K, V>(t: Tree<K, V>) -> nat {
    match t {
        None => 0,
        Some(n) => n.size as nat,
    }
}

/// The sum of the weights of a run of entries.
pub open spec fn entries_weight<K, V>(es: Seq<Entry<K, V>>) -> nat
    decreases es.len(),
{
    if es.len() == 0 {
        0
    } else {
        entry_weight(es[0]) + entries_weight(es.drop_first())
    }
}

/// The entries of the root node (none for the empty tree).
pub open spec fn root_entries<K, V>(t: Tree<K, V>) -> Seq<Entry<K, V>> {
    match t {
        Some(n) => n.items.0.entries@,
        None => Seq::empty(),
    }
}

/// The right subtree of the root.
pub open spec fn root_right<K, V>(t: Tree<K, V>) -> Tree<K, V> {
    match t {
        Some(n) => n.right,
        None => None,
    }
}

/// The item an entry stands for in a node of rank `rank`.
pub open spec fn item_of<K, V>(e: Entry<K, V>, rank: u32) -> Item<K, V> {
    Item { key: e.key, value: value_of(e.value), rank }
}

/// The keys of a tree, in order, each with its value and rank.
pub open spec fn tree_items<K, V>(t: Tree<K, V>) -> Seq<Item<K, V>>
    decreases t,
{
    match t {
        None => Seq::empty(),
        Some(n) => run_items(n.items.0.entries@, n.rank) + tree_items(n.right),
    }
}

/// The keys of a run of entries of one node, with their left subtrees.
pub open spec fn run_items<K, V>(es: Seq<Entry<K, V>>, rank: u32) -> Seq<Item<K, V>>
    decreases es,
{
    if es.len() == 0 {
        Seq::empty()
    } else {
        tree_items(es[0].left) + seq![item_of(es[0], rank)] + run_items(es.drop_first(), rank)
    }
}


/// Whether every node of `t` has a rank below `r`.
pub open spec fn below<K, V>(t: Tree<K, V>, r: u32) -> bool {
    match t {
        None => true,
        Some(n) => n.rank < r,
    }
}

/// The G-tree invariant: nodes are non-empty, ranks strictly decrease down
/// every path, every entry holds a value of its own, and the recorded sizes
/// and weights count the keys.
pub open spec fn tree_wf<K, V>(t: Tree<K, V>) -> bool
    decreases t,
{
    match t {
        None => true,
        Some(n) => {
            &&& n.items.0.entries@.len() > 0
            &&& run_wf(n.items.0.entries@, n.rank)
            &&& tree_wf(n.right)
            &&& below(n.right, n.rank)
            &&& n.items.0.weight == run_items(n.items.0.entries@, n.rank).len()
            &&& n.size == run_items(n.items.0.entries@, n.rank).len() + tree_items(n.right).len()
        },
    }
}

/// Every entry of a run holds its own value and a well-formed left subtree of
/// lower rank.
pub open spec fn run_wf<K, V>(es: Seq<Entry<K, V>>, rank: u32) -> bool
    decreases es,
{
    if es.len() == 0 {
        true
    } else {
        &&& es[0].value is Own
        &&& tree_wf(es[0].left)
        &&& below(es[0].left, rank)
        &&& run_wf(es.drop_first(), rank)
    }
}

/// The number of keys in a tree.
pub open spec fn tree_len<K, V>(t: Tree<K, V>) -> nat {
    tree_items(t).len()
}

// ---------------------------------------------------------------------------
// Lemmas on the model
// ---------------------------------------------------------------------------

/// A well-formed tree records its own size.
pub proof fn lemma_size_field<K, V>(t: Tree<K, V>)
    requires
        tree_wf(t),
    ensures
        size_field(t) == tree_len(t),
{
}

/// The items of a concatenation of runs are the concatenation of their items.
pub proof fn lemma_run_items_append<K, V>(a: Seq<Entry<K, V>>, b: Seq<Entry<K, V>>, rank: u32)
    ensures
        run_items(a + b, rank) == run_items(a, rank) + run_items(b, rank),
        run_wf(a + b, rank) == (run_wf(a, rank) && run_wf(b, rank)),
    decreases a.len(),
{
    if a.len() == 0 {
        assert(a + b =~= b);
    } else {
        assert((a + b).drop_first() =~= a.drop_first() + b);
        lemma_run_items_append(a.drop_first(), b, rank);
        assert(run_items(a + b, rank) =~= run_items(a, rank) + run_items(b, rank));
    }
}

/// A run of well-formed entries weighs as many keys as it holds.
pub proof fn lemma_entries_weight<K, V>(es: Seq<Entry<K, V>>, rank: u32)
    requires
        run_wf(es, rank),
    ensures
        entries_weight(es) == run_items(es, rank).len(),
    decreases es.len(),
{
    if es.len() > 0 {
        lemma_entries_weight(es.drop_first(), rank);
        lemma_size_field(es[0].left);
    }
}

/// The weight of a concatenation of runs is the sum of their weights.
pub proof fn lemma_entries_weight_append<K, V>(a: Seq<Entry<K, V>>, b: Seq<Entry<K, V>>)
    ensures
        entries_weight(a + b) == entries_weight(a) + entries_weight(b),
    decreases a.len(),
{
    if a.len() == 0 {
        assert(a + b =~= b);
    } else {
        assert((a + b).drop_first() =~= a.drop_first() + b);
        lemma_entries_weight_append(a.drop_first(), b);
    }
}


// ---------------------------------------------------------------------------
// Cloning
// ---------------------------------------------------------------------------

/// `T::clone` gives back a value equal to the one it was called on, as it does for the
/// keys and values the structures are meant for.
pub open spec fn clone_exact<T: Clone>() -> bool {
    forall|a: T, b: T| #[trigger] call_ensures(T::clone, (&a,), b) ==> a == b
}

/// Key and value clones are exact.
pub open spec fn clones_exact<K: Clone, V: Clone>() -> bool {
    clone_exact::<K>() && clone_exact::<V>()
}

/// A copy of `k` by its `clone`.
pub fn clone_of<T: Clone>(k: &T) -> (r: T)
    requires
        clone_exact::<T>(),
    ensures
        r == *k,
{
    k.clone()
}


impl<K, V: Clone> Clone for Value<K, V> {
    fn clone(&self) -> (r: Self)
        ensures
            clone_exact::<V>() ==> r == *self,
    {
        match self {
            Value::Own(v) => Value::Own(v.clone()),
            Value::Outer(e) => Value::Outer(e.clone()),
        }
    }
}

impl<K: Clone, V: Clone> Clone for Entry<K, V> {
    fn clone(&self) -> (r: Self)
        ensures
            clones_exact::<K, V>() ==> r == *self,
    {
        Entry { key: self.key.clone(), value: self.value.clone(), left: share(&self.left) }
    }
}

impl<K, V> Clone for Slice<K, V> {
    fn clone(&self) -> (r: Self)
        ensures
            r == *self,
    {
        Slice { entries: self.entries.clone(), weight: self.weight }
    }
}

impl<K, V> Clone for ArrayItems<K, V> {
    fn clone(&self) -> (r: Self)
        ensures
            r == *self,
    {
        ArrayItems(self.0.clone())
    }
}

/// Another handle on the same tree.
pub fn share<K, V>(t: &Tree<K, V>) -> (r: Tree<K, V>)
    ensures
        r == *t,
{
    match t {
        None => None,
        Some(n) => Some(n.clone()),
    }
}

// ---------------------------------------------------------------------------
// Entries and sizes
// ---------------------------------------------------------------------------

/// Number of keys in a tree, as its root records it.
pub fn size<K, V>(t: &Tree<K, V>) -> (r: usize)
    ensures
        r == size_field(*t),
{
    match t {
        None => 0,
        Some(n) => n.size,
    }
}

impl<K, V> Entry<K, V> {
    /// Number of keys this entry stands for: itself and its left subtree.
    pub fn weight(&self) -> (r: usize)
        requires
            entry_weight(*self) <= usize::MAX,
        ensures
            r == entry_weight(*self),
        decreases *self,
    {
        let own = match &self.value {
            Value::Own(_) => 1,
            Value::Outer(outer) => outer.weight(),
        };
        size(&self.left) + own
    }

    /// The value stored for this key, following outer entries as needed.
    pub fn value(&self) -> (r: &V)
        ensures
            *r == value_of(self.value),
        decreases *self,
    {
        match &self.value {
            Value::Own(v) => v,
            Value::Outer(outer) => outer.value(),
        }
    }
}

/// Whether `at` may be called on every entry.
pub open spec fn total<K, V, F: Fn(&Entry<K, V>) -> Ordering>(at: F) -> bool {
    forall|e: &Entry<K, V>| #[trigger] call_requires(at, (e,))
}

/// Whether `at` answers for every entry what `f` says of its key and the
/// value it stands for.
pub open spec fn keyed_by<K, V, F: Fn(&Entry<K, V>) -> Ordering>(
    at: F,
    f: spec_fn(K, V) -> Ordering,
) -> bool {
    forall|e: &Entry<K, V>, o: Ordering| #[trigger] call_ensures(at, (e,), o) ==> o == f(e.key, value_of(e.value))
}

/// `es` splits at index `i` under `f`: the entries before it are before the
/// position, and the one at it is at the position exactly when `hit`.
pub open spec fn splits_at<K, V>(
    es: Seq<Entry<K, V>>,
    i: int,
    hit: bool,
    f: spec_fn(K, V) -> Ordering,
) -> bool {
    &&& first_from(es, i, f)
    &&& i < es.len() ==> (hit <==> f(es[i].key, value_of(es[i].value)) == Ordering::Equal)
    &&& i == es.len() ==> !hit
}

/// An index as a natural number.
pub open spec fn int_of(x: usize) -> int {
    x as int
}

/// The length of a sequence as an integer.
pub open spec fn len_of<T>(s: Seq<T>) -> int {
    s.len() as int
}

/// `es[i]` is the first entry of `es` that `f` does not place before the
/// position (`i` is the length if there is none).
pub open spec fn first_from<K, V>(es: Seq<Entry<K, V>>, i: int, f: spec_fn(K, V) -> Ordering) -> bool {
    &&& 0 <= i <= es.len()
    &&& forall|j: int| 0 <= j < i ==> f(#[trigger] es[j].key, value_of(es[j].value)) == Ordering::Less
    &&& i < es.len() ==> f(es[i].key, value_of(es[i].value)) != Ordering::Less
}

/// `r` is the entry at index `i` of `es` (or nothing, at the end), and that
/// is the first entry that `at` does not place before its position.
pub open spec fn found_at<K, V, F: Fn(&Entry<K, V>) -> Ordering>(
    es: Seq<Entry<K, V>>,
    i: int,
    at: F,
    r: Option<&Entry<K, V>>,
) -> bool {
    &&& 0 <= i <= es.len()
    &&& forall|f: spec_fn(K, V) -> Ordering| #[trigger] keyed_by(at, f) ==> first_from(es, i, f)
    &&& i < es.len() ==> r == Some(&es[i])
    &&& i == es.len() ==> r is None
}

/// A sequence of zero or one element.
pub open spec fn opt_seq<T>(o: Option<T>) -> Seq<T> {
    match o {
        Some(x) => seq![x],
        None => Seq::empty(),
    }
}

/// A slice records the weight of its entries.
pub open spec fn slice_wf<K, V>(s: Slice<K, V>) -> bool {
    s.weight == entries_weight(s.entries@)
}

/// Copies of the entries `es[lo..hi]`.
fn copy_range<K: Clone, V: Clone>(es: &Vec<Entry<K, V>>, lo: usize, hi: usize) -> (r: Vec<Entry<K, V>>)
    requires
        lo <= hi <= es.len(),
        clones_exact::<K, V>(),
    ensures
        r@ == es@.subrange(lo as int, hi as int),
{
    let mut out: Vec<Entry<K, V>> = Vec::new();
    let mut i = lo;
    while i < hi
        invariant
            lo <= i <= hi <= es.len(),
            clones_exact::<K, V>(),
            out@ == es@.subrange(lo as int, i as int),
        decreases hi - i,
    {
        out.push(es[i].clone());
        i = i + 1;
        assert(out@ =~= es@.subrange(lo as int, i as int));
    }
    out
}


/// The weight of a prefix grows by one entry at a time and stays within the
/// weight of the whole run.
proof fn lemma_prefix_weight<K, V>(es: Seq<Entry<K, V>>, i: int)
    requires
        0 <= i < es.len(),
    ensures
        entries_weight(es.take(i + 1)) == entries_weight(es.take(i)) + entry_weight(es[i]),
        entries_weight(es.take(i + 1)) <= entries_weight(es),
{
    assert(es.take(i + 1) =~= es.take(i) + seq![es[i]]);
    lemma_entries_weight_append(es.take(i), seq![es[i]]);
    assert(seq![es[i]].drop_first() =~= Seq::<Entry<K, V>>::empty());
    assert(entries_weight(Seq::<Entry<K, V>>::empty()) == 0);
    assert(entries_weight(seq![es[i]]) == entry_weight(es[i]));
    assert(es =~= es.take(i + 1) + es.skip(i + 1));
    lemma_entries_weight_append(es.take(i + 1), es.skip(i + 1));
}

/// Splitting a run splits its weight.
proof fn lemma_split_weight<K, V>(es: Seq<Entry<K, V>>, i: int, j: int)
    requires
        0 <= i <= j <= es.len(),
    ensures
        entries_weight(es.subrange(0, i)) + entries_weight(es.subrange(j, es.len() as int))
            <= entries_weight(es),
{
    assert(es =~= es.subrange(0, i) + (es.subrange(i, j) + es.subrange(j, es.len() as int)));
    lemma_entries_weight_append(es.subrange(0, i), es.subrange(i, j) + es.subrange(j, es.len() as int));
    lemma_entries_weight_append(es.subrange(i, j), es.subrange(j, es.len() as int));
}

impl<K: Clone, V: Clone> Slice<K, V> {
    /// A slice of the given entries, weighing them.
    pub fn new(entries: Vec<Entry<K, V>>) -> (r: Self)
        requires
            entries_weight(entries@) <= usize::MAX,
        ensures
            r.entries@ == entries@,
            slice_wf(r),
    {
        let mut weight: usize = 0;
        let mut i: usize = 0;
        while i < entries.len()
            invariant
                i <= entries.len(),
                entries_weight(entries@) <= usize::MAX,
                weight == entries_weight(entries@.take(i as int)),
            decreases entries.len() - i,
        {
            proof {
                lemma_prefix_weight(entries@, i as int);
            }
            let w = entries[i].weight();
            weight = weight + w;
            i = i + 1;
        }
        assert(entries@.take(i as int) =~= entries@);
        Slice { entries: Arc::new(entries), weight }
    }

    pub fn len(&self) -> (r: usize)
        ensures
            r == self.entries@.len(),
    {
        self.entries.len()
    }

    pub fn is_empty(&self) -> (r: bool)
        ensures
            r == (self.entries@.len() == 0),
    {
        self.entries.len() == 0
    }

    /// The index of the first entry at or after the position of `at`, or the
    /// number of entries if there is none.
    fn first_not_before(&self, at: &impl Fn(&Entry<K, V>) -> Ordering) -> (r: (usize, bool))
        requires
            total(*at),
        ensures
            r.0 <= self.entries@.len(),
            r.0 == self.entries@.len() ==> !r.1,
            forall|f: spec_fn(K, V) -> Ordering|
                keyed_by(*at, f) ==> splits_at(self.entries@, int_of(r.0), r.1, f),
    {
        let mut i: usize = 0;
        while i < self.entries.len()
            invariant
                i <= self.entries@.len(),
                total(*at),
                forall|f: spec_fn(K, V) -> Ordering|
                    keyed_by(*at, f) ==> forall|j: int|
                        0 <= j < i ==> f(#[trigger] self.entries@[j].key, value_of(self.entries@[j].value)) == Ordering::Less,
            decreases self.entries@.len() - i,
        {
            let o = at(&self.entries[i]);
            match o {
                Ordering::Less => {},
                Ordering::Equal => {
                    return (i, true);
                },
                Ordering::Greater => {
                    return (i, false);
                },
            }
            i = i + 1;
        }
        (i, false)
    }

    /// Entries before the position, the entry at it (if any), entries after.
    pub fn split(&self, at: &impl Fn(&Entry<K, V>) -> Ordering) -> (r: (Self, Option<Entry<K, V>>, Self))
        requires
            total(*at),
            slice_wf(*self),
            clones_exact::<K, V>(),
        ensures
            r.0.entries@ + opt_seq(r.1) + r.2.entries@ == self.entries@,
            slice_wf(r.0),
            slice_wf(r.2),
            forall|f: spec_fn(K, V) -> Ordering|
                keyed_by(*at, f) ==> splits_at(self.entries@, len_of(r.0.entries@), r.1 is Some, f),
    {
        let (i, hit) = self.first_not_before(at);
        self.cut(i, hit)
    }

    /// The entries before index `i`, the entry at `i` if `hit`, and the rest.
    pub(crate) fn cut(&self, i: usize, hit: bool) -> (r: (Self, Option<Entry<K, V>>, Self))
        requires
            i <= self.entries@.len(),
            hit ==> i < self.entries@.len(),
            slice_wf(*self),
            clones_exact::<K, V>(),
        ensures
            r.0.entries@ == self.entries@.take(i as int),
            r.1 == (if hit { Some(self.entries@[i as int]) } else { None }),
            r.2.entries@ == self.entries@.skip(if hit { i + 1 } else { i as int }),
            r.0.entries@ + opt_seq(r.1) + r.2.entries@ == self.entries@,
            slice_wf(r.0),
            slice_wf(r.2),
    {
        let n = self.entries.len();
        let j = if hit { i + 1 } else { i };
        proof {
            lemma_split_weight(self.entries@, i as int, j as int);
        }
        let lo = Self::new(copy_range(&self.entries, 0, i));
        let hi = Self::new(copy_range(&self.entries, j, n));
        let e = if hit { Some(self.entries[i].clone()) } else { None };
        assert(lo.entries@ + opt_seq(e) + hi.entries@ =~= self.entries@);
        assert(lo.entries@ =~= self.entries@.take(i as int));
        assert(hi.entries@ =~= self.entries@.skip(j as int));
        (lo, e, hi)
    }

    /// The first entry at or after the position.
    pub fn find(&self, at: &impl Fn(&Entry<K, V>) -> Ordering) -> (r: Option<&Entry<K, V>>)
        requires
            total(*at),
        ensures
            exists|i: int| #[trigger] found_at(self.entries@, i, *at, r),
    {
        let (i, hit) = self.first_not_before(at);
        let r = if i < self.entries.len() {
            Some(&self.entries[i])
        } else {
            None
        };
        assert(found_at(self.entries@, int_of(i), *at, r));
        r
    }

    /// Concatenate; every entry of `other` must follow every entry of this.
    pub fn join(&self, other: &Self) -> (r: Self)
        requires
            slice_wf(*self),
            slice_wf(*other),
            self.weight + other.weight <= usize::MAX,
            clones_exact::<K, V>(),
        ensures
            r.entries@ == self.entries@ + other.entries@,
            slice_wf(r),
    {
        let mut v = copy_range(&self.entries, 0, self.entries.len());
        let mut w = copy_range(&other.entries, 0, other.entries.len());
        v.append(&mut w);
        proof {
            lemma_entries_weight_append(self.entries@, other.entries@);
            assert(self.entries@.subrange(0, self.entries@.len() as int) =~= self.entries@);
            assert(other.entries@.subrange(0, other.entries@.len() as int) =~= other.entries@);
        }
        Self::new(v)
    }

    /// The first entry and the rest.
    pub fn shift(&self) -> (r: (Entry<K, V>, Self))
        requires
            self.entries@.len() > 0,
            slice_wf(*self),
            clones_exact::<K, V>(),
        ensures
            r.0 == self.entries@[0],
            r.1.entries@ == self.entries@.drop_first(),
            slice_wf(r.1),
    {
        proof {
            lemma_split_weight(self.entries@, 0, 1);
        }
        let rest = copy_range(&self.entries, 1, self.entries.len());
        (self.entries[0].clone(), Self::new(rest))
    }

    /// Prepend an entry that precedes every existing entry.
    pub fn unshift(&self, e: Entry<K, V>) -> (r: Self)
        requires
            slice_wf(*self),
            entry_weight(e) + self.weight <= usize::MAX,
            clones_exact::<K, V>(),
        ensures
            r.entries@ == seq![e] + self.entries@,
            slice_wf(r),
    {
        let mut v: Vec<Entry<K, V>> = Vec::new();
        v.push(e);
        let mut rest = copy_range(&self.entries, 0, self.entries.len());
        v.append(&mut rest);
        proof {
            assert(self.entries@.subrange(0, self.entries@.len() as int) =~= self.entries@);
            assert(v@ =~= seq![e] + self.entries@);
            assert((seq![e] + self.entries@).drop_first() =~= self.entries@);
        }
        Self::new(v)
    }

    /// The entries, in order.
    pub fn iter(&self) -> (r: &[Entry<K, V>])
        ensures
            r@ == self.entries@,
    {
        self.entries.as_slice()
    }
}


/// An immutable, ordered collection of entries: the inner set of a G-node.
///
/// `at` locates a position: it returns [`Ordering::Less`] for entries before
/// the position, [`Ordering::Equal`] for an entry at it and
/// [`Ordering::Greater`] for entries after; it must be monotone over the
/// collection.
pub trait Items<K: Clone, V: Clone>: Sized {
    /// The entries, in order.
    spec fn entries_view(&self) -> Seq<Entry<K, V>>;

    /// The recorded weight.
    spec fn weight_view(&self) -> nat;

    /// The recorded weight is that of the entries.
    spec fn items_wf(&self) -> bool;

    /// Number of keys in the entries and their left subtrees.
    fn weight(&self) -> (r: usize)
        ensures
            r == self.weight_view();

    /// Entries before the position, the entry at it (if any), entries after.
    fn split<F: Fn(&Entry<K, V>) -> Ordering>(&self, at: &F) -> (r: (Self, Option<Entry<K, V>>, Self))
        requires
            self.items_wf(),
            total(*at),
            clones_exact::<K, V>(),
        ensures
            r.0.items_wf(),
            r.2.items_wf(),
            r.0.entries_view() + opt_seq(r.1) + r.2.entries_view() == self.entries_view(),
            forall|f: spec_fn(K, V) -> Ordering|
                keyed_by(*at, f) ==> splits_at(self.entries_view(), len_of(r.0.entries_view()), r.1 is Some, f);

    /// The first entry at or after the position.
    fn find<F: Fn(&Entry<K, V>) -> Ordering>(&self, at: &F) -> (r: Option<&Entry<K, V>>)
        requires
            total(*at),
        ensures
            exists|i: int| #[trigger] found_at(self.entries_view(), i, *at, r);

    /// Concatenate; every entry of `other` must follow every entry of this.
    fn join(&self, other: &Self) -> (r: Self)
        requires
            self.items_wf(),
            other.items_wf(),
            self.weight_view() + other.weight_view() <= usize::MAX,
            clones_exact::<K, V>(),
        ensures
            r.items_wf(),
            r.entries_view() == self.entries_view() + other.entries_view();

    /// The first entry and the rest. Must not be called when empty.
    fn shift(&self) -> (r: (Entry<K, V>, Self))
        requires
            self.items_wf(),
            self.entries_view().len() > 0,
            clones_exact::<K, V>(),
        ensures
            r.1.items_wf(),
            r.0 == self.entries_view()[0],
            r.1.entries_view() == self.entries_view().drop_first();

    /// Prepend an entry that precedes every existing entry.
    fn unshift(&self, e: Entry<K, V>) -> (r: Self)
        requires
            self.items_wf(),
            entry_weight(e) + self.weight_view() <= usize::MAX,
            clones_exact::<K, V>(),
        ensures
            r.items_wf(),
            r.entries_view() == seq![e] + self.entries_view();

    /// The entries, in order.
    fn iter(&self) -> (r: &[Entry<K, V>])
        ensures
            r@ == self.entries_view();
}

impl<K: Clone, V: Clone> Default for ArrayItems<K, V> {
    /// An empty inner set.
    fn default() -> (r: Self)
        ensures
            r.0.entries@.len() == 0,
            slice_wf(r.0),
    {
        ArrayItems::new()
    }
}

impl<K: Clone, V: Clone> ArrayItems<K, V> {
    /// An empty inner set.
    pub fn new() -> (r: Self)
        ensures
            r.0.entries@.len() == 0,
            slice_wf(r.0),
    {
        ArrayItems(Slice::new(Vec::new()))
    }
}

impl<K: Clone, V: Clone> Items<K, V> for ArrayItems<K, V> {
    open spec fn entries_view(&self) -> Seq<Entry<K, V>> {
        self.0.entries@
    }

    open spec fn weight_view(&self) -> nat {
        self.0.weight as nat
    }

    open spec fn items_wf(&self) -> bool {
        slice_wf(self.0)
    }

    fn weight(&self) -> (r: usize) {
        self.0.weight
    }

    fn split<F: Fn(&Entry<K, V>) -> Ordering>(&self, at: &F) -> (r: (Self, Option<Entry<K, V>>, Self)) {
        let (lo, hit, hi) = self.0.split(at);
        (ArrayItems(lo), hit, ArrayItems(hi))
    }

    fn find<F: Fn(&Entry<K, V>) -> Ordering>(&self, at: &F) -> (r: Option<&Entry<K, V>>) {
        let r = self.0.find(at);
        proof {
            let i = choose|i: int| found_at(self.0.entries@, i, *at, r);
            assert(found_at(self.entries_view(), i, *at, r));
        }
        r
    }

    fn join(&self, other: &Self) -> (r: Self) {
        ArrayItems(self.0.join(&other.0))
    }

    fn shift(&self) -> (r: (Entry<K, V>, Self)) {
        let (e, rest) = self.0.shift();
        (e, ArrayItems(rest))
    }

    fn unshift(&self, e: Entry<K, V>) -> (r: Self) {
        ArrayItems(self.0.unshift(e))
    }

    fn iter(&self) -> (r: &[Entry<K, V>]) {
        self.0.iter()
    }
}


// ---------------------------------------------------------------------------
// Building nodes
// ---------------------------------------------------------------------------

/// The rank at the root of a tree, or -1 for the empty tree.
pub open spec fn top<K, V>(t: Tree<K, V>) -> int {
    match t {
        None => -1,
        Some(n) => n.rank as int,
    }
}

/// A run with one entry in front.
pub proof fn lemma_run_cons<K, V>(e: Entry<K, V>, rest: Seq<Entry<K, V>>, rank: u32)
    ensures
        run_items(seq![e] + rest, rank) == tree_items(e.left) + seq![item_of(e, rank)] + run_items(rest, rank),
        run_wf(seq![e] + rest, rank) == (e.value is Own && tree_wf(e.left) && below(e.left, rank) && run_wf(rest, rank)),
{
    assert((seq![e] + rest).drop_first() =~= rest);
    assert((seq![e] + rest)[0] == e);
}

/// A non-empty run of well-formed entries has items, the last of which is
/// that of its last entry.
pub proof fn lemma_run_last<K, V>(es: Seq<Entry<K, V>>, rank: u32)
    requires
        es.len() > 0,
    ensures
        run_items(es, rank).len() > 0,
        run_items(es, rank).last() == item_of(es.last(), rank),
        run_items(es, rank) == run_items(es.drop_last(), rank) + tree_items(es.last().left)
            + seq![item_of(es.last(), rank)],
{
    assert(es =~= es.drop_last() + seq![es.last()]);
    lemma_run_items_append(es.drop_last(), seq![es.last()], rank);
    lemma_run_cons(es.last(), Seq::empty(), rank);
    assert(seq![es.last()] + Seq::<Entry<K, V>>::empty() =~= seq![es.last()]);
}

/// A node built from a non-empty run of well-formed entries of one rank over
/// a right subtree of lower rank is well formed and holds the run's keys
/// followed by the subtree's.
pub proof fn lemma_node_wf<K, V>(t: Tree<K, V>)
    requires
        t is Some,
        t->0.items.0.entries@.len() > 0,
        run_wf(t->0.items.0.entries@, t->0.rank),
        slice_wf(t->0.items.0),
        tree_wf(t->0.right),
        below(t->0.right, t->0.rank),
        t->0.size == t->0.items.0.weight + size_field(t->0.right),
    ensures
        tree_wf(t),
        tree_items(t) == run_items(t->0.items.0.entries@, t->0.rank) + tree_items(t->0.right),
        top(t) == t->0.rank,
{
    lemma_entries_weight(root_entries(t), t->0.rank);
}

/// A run of well-formed entries weighs nothing exactly when it is empty.
pub proof fn lemma_weight_zero<K, V>(es: Seq<Entry<K, V>>, rank: u32)
    requires
        run_wf(es, rank),
    ensures
        (entries_weight(es) == 0) == (es.len() == 0),
{
    lemma_entries_weight(es, rank);
    if es.len() > 0 {
        lemma_run_last(es, rank);
    }
}

/// Build a G-node, or collapse to `right` when there are no items.
pub fn node<K: Clone, V: Clone>(rank: u32, items: ArrayItems<K, V>, right: Tree<K, V>) -> (r: Tree<K, V>)
    requires
        items.0.weight + size_field(right) <= usize::MAX,
    ensures
        items.0.weight == 0 ==> r == right,
        items.0.weight != 0 ==> (r matches Some(n) && n.rank == rank && n.items == items && n.right == right
            && n.size == items.0.weight + size_field(right)),
{
    let weight = items.weight();
    if weight == 0 {
        return right;
    }
    let size = weight + size(&right);
    Some(Arc::new(Node { rank, items, right, size }))
}

/// A tree holding a single entry, built from an empty inner set.
pub fn single<K: Clone, V: Clone>(key: K, value: V, rank: u32, empty: &ArrayItems<K, V>) -> (r: Tree<K, V>)
    requires
        empty.0.entries@.len() == 0,
        slice_wf(empty.0),
        clones_exact::<K, V>(),
    ensures
        tree_wf(r),
        tree_items(r) == seq![Item { key, value, rank }],
        top(r) == rank,
        r matches Some(n) && n.rank == rank && n.size == 1 && n.right is None
            && n.items.0.entries@ == seq![Entry { key, value: Value::Own(value), left: None }],
{
    let e = Entry { key, value: Value::Own(value), left: None };
    let items = empty.unshift(e);
    let r = node(rank, items, None);
    proof {
        assert(items.0.entries@ =~= seq![e]);
        lemma_run_cons(e, Seq::empty(), rank);
        assert(seq![e] + Seq::<Entry<K, V>>::empty() =~= seq![e]);
        assert(entries_weight(seq![e].drop_first()) == 0);
        lemma_node_wf(r);
        assert(tree_items(r) =~= seq![Item { key, value, rank }]);
    }
    r
}


/// A well-formed node holds keys: the root of a non-empty tree counts for
/// more than its right subtree and each subtree of its entries.
pub proof fn lemma_root_len<K, V>(t: Tree<K, V>)
    requires
        tree_wf(t),
        t is Some,
    ensures
        tree_len(root_right(t)) < tree_len(t),
        root_entries(t).len() > 0,
        tree_len(root_entries(t)[0].left) < tree_len(t),
        tree_items(t) == run_items(root_entries(t), t->0.rank) + tree_items(root_right(t)),
{
    let es = root_entries(t);
    lemma_run_last(es, t->0.rank);
    lemma_run_cons(es[0], es.drop_first(), t->0.rank);
    assert(seq![es[0]] + es.drop_first() =~= es);
}

/// Join two trees; every key of `l` must precede every key of `r`.
pub fn zip<K: Clone, V: Clone>(l: &Tree<K, V>, r: &Tree<K, V>) -> (res: Tree<K, V>)
    requires
        tree_wf(*l),
        tree_wf(*r),
        tree_len(*l) + tree_len(*r) <= usize::MAX,
        clones_exact::<K, V>(),
    ensures
        tree_wf(res),
        tree_items(res) == tree_items(*l) + tree_items(*r),
        top(res) == if top(*l) >= top(*r) { top(*l) } else { top(*r) },
        *l is None ==> res == *r,
        *r is None ==> res == *l,
    decreases tree_len(*l) + tree_len(*r),
{
    let ln = match l {
        None => {
            assert(tree_items(*l) + tree_items(*r) =~= tree_items(*r));
            return share(r);
        },
        Some(ln) => ln,
    };
    let rn = match r {
        None => {
            assert(tree_items(*l) + tree_items(*r) =~= tree_items(*l));
            return share(l);
        },
        Some(rn) => rn,
    };
    proof {
        lemma_root_len(*l);
        lemma_root_len(*r);
        lemma_entries_weight(root_entries(*l), ln.rank);
        lemma_entries_weight(root_entries(*r), rn.rank);
        lemma_size_field(root_right(*r));
    }
    // l has the higher rank: r belongs somewhere down l's right spine.
    if ln.rank > rn.rank {
        let z = zip(&ln.right, r);
        proof {
            lemma_size_field(z);
        }
        let res = node(ln.rank, ln.items.clone(), z);
        proof {
            lemma_weight_zero(root_entries(*l), ln.rank);
            lemma_node_wf(res);
            assert(tree_items(res) =~= tree_items(*l) + tree_items(*r));
        }
        return res;
    }
    // Otherwise (part of) l belongs in the leftmost subtree of r.
    let (first, rest) = rn.items.shift();
    proof {
        let es = root_entries(*r);
        lemma_run_cons(es[0], es.drop_first(), rn.rank);
        assert(seq![es[0]] + es.drop_first() =~= es);
        lemma_entries_weight(rest.0.entries@, rn.rank);
    }
    if ln.rank < rn.rank {
        let left = zip(l, &first.left);
        let e = Entry { key: first.key, value: first.value, left };
        proof {
            lemma_size_field(left);
        }
        let items = rest.unshift(e);
        proof {
            lemma_run_cons(e, rest.0.entries@, rn.rank);
            lemma_entries_weight(items.0.entries@, rn.rank);
        }
        let res = node(rn.rank, items, share(&rn.right));
        proof {
            lemma_weight_zero(items.0.entries@, rn.rank);
            lemma_node_wf(res);
            assert(tree_items(res) =~= tree_items(*l) + tree_items(*r));
        }
        return res;
    }
    // Equal ranks: the two nodes merge into one.
    let left = zip(&ln.right, &first.left);
    let e = Entry { key: first.key, value: first.value, left };
    proof {
        lemma_size_field(left);
    }
    let tail = rest.unshift(e);
    proof {
        lemma_run_cons(e, rest.0.entries@, rn.rank);
        lemma_entries_weight(tail.0.entries@, rn.rank);
    }
    let items = ln.items.join(&tail);
    proof {
        lemma_run_items_append(root_entries(*l), tail.0.entries@, rn.rank);
        lemma_entries_weight(items.0.entries@, rn.rank);
    }
    let res = node(rn.rank, items, share(&rn.right));
    proof {
        lemma_weight_zero(items.0.entries@, rn.rank);
        lemma_node_wf(res);
        assert(tree_items(res) =~= tree_items(*l) + tree_items(*r));
    }
    res
}


// ---------------------------------------------------------------------------
// Positions
// ---------------------------------------------------------------------------

/// `f` is a position over the keys of `s`: once a key is not before the
/// position, every later key is after it. So `f` says `Less` for a prefix,
/// `Equal` for at most one key, and `Greater` for the rest.
pub open spec fn monotone<K, V>(s: Seq<Item<K, V>>, f: spec_fn(K, V) -> Ordering) -> bool {
    forall|i: int, j: int|
        0 <= i < j < s.len() && f(#[trigger] s[i].key, s[i].value) != Ordering::Less
            ==> f(#[trigger] s[j].key, s[j].value) == Ordering::Greater
}

/// `f` says `o` of every item (key and value) of `s`.
pub open spec fn all_are<K, V>(s: Seq<Item<K, V>>, f: spec_fn(K, V) -> Ordering, o: Ordering) -> bool {
    forall|i: int| 0 <= i < s.len() ==> f(#[trigger] s[i].key, s[i].value) == o
}

/// A position over a concatenation is one over each part.
pub proof fn lemma_monotone_parts<K, V>(a: Seq<Item<K, V>>, b: Seq<Item<K, V>>, f: spec_fn(K, V) -> Ordering)
    requires
        monotone(a + b, f),
    ensures
        monotone(a, f),
        monotone(b, f),
{
    assert forall|i: int, j: int|
        0 <= i < j < a.len() && f(#[trigger] a[i].key, a[i].value) != Ordering::Less
        implies f(#[trigger] a[j].key, a[j].value) == Ordering::Greater by {
        assert((a + b)[i] == a[i]);
        assert((a + b)[j] == a[j]);
    }
    assert forall|i: int, j: int|
        0 <= i < j < b.len() && f(#[trigger] b[i].key, b[i].value) != Ordering::Less
        implies f(#[trigger] b[j].key, b[j].value) == Ordering::Greater by {
        assert((a + b)[a.len() + i] == b[i]);
        assert((a + b)[a.len() + j] == b[j]);
    }
}

/// Before a key that is before the position, every key is before it; after a
/// key that is not, every key is after it.
pub proof fn lemma_monotone_pivot<K, V>(a: Seq<Item<K, V>>, x: Item<K, V>, b: Seq<Item<K, V>>, f: spec_fn(K, V) -> Ordering)
    requires
        monotone(a + seq![x] + b, f),
    ensures
        f(x.key, x.value) == Ordering::Less ==> all_are(a, f, Ordering::Less),
        f(x.key, x.value) != Ordering::Less ==> all_are(b, f, Ordering::Greater),
        f(x.key, x.value) == Ordering::Equal ==> all_are(a, f, Ordering::Less),
{
    let s = a + seq![x] + b;
    assert(s[len_of(a)] == x);
    assert forall|i: int| 0 <= i < a.len() && (f(x.key, x.value) == Ordering::Less || f(x.key, x.value) == Ordering::Equal)
        implies f(#[trigger] a[i].key, a[i].value) == Ordering::Less by {
        assert(s[i] == a[i]);
        if f(a[i].key, a[i].value) != Ordering::Less {
            assert(f(s[len_of(a)].key, s[len_of(a)].value) == Ordering::Greater);
        }
    }
    assert forall|j: int| 0 <= j < b.len() && f(x.key, x.value) != Ordering::Less
        implies f(#[trigger] b[j].key, b[j].value) == Ordering::Greater by {
        assert(s[a.len() + 1 + j] == b[j]);
    }
}

/// Every entry of a well-formed run is well formed.
pub proof fn lemma_run_wf_at<K, V>(es: Seq<Entry<K, V>>, rank: u32, i: int)
    requires
        run_wf(es, rank),
        0 <= i < es.len(),
    ensures
        es[i].value is Own,
        tree_wf(es[i].left),
        below(es[i].left, rank),
    decreases i,
{
    if i > 0 {
        lemma_run_wf_at(es.drop_first(), rank, i - 1);
    }
}

/// The subtree of any entry of the root holds fewer keys than the tree.
pub proof fn lemma_entry_left_len<K, V>(t: Tree<K, V>, i: int)
    requires
        tree_wf(t),
        t is Some,
        0 <= i < root_entries(t).len(),
    ensures
        tree_len(root_entries(t)[i].left) < tree_len(t),
{
    let es = root_entries(t);
    let r = t->0.rank;
    assert(es =~= es.take(i) + (seq![es[i]] + es.skip(i + 1)));
    lemma_run_items_append(es.take(i), seq![es[i]] + es.skip(i + 1), r);
    lemma_run_cons(es[i], es.skip(i + 1), r);
}


/// Parts that are all before (or all after) a position make a whole that is.
pub proof fn lemma_all_are_append<K, V>(a: Seq<Item<K, V>>, b: Seq<Item<K, V>>, f: spec_fn(K, V) -> Ordering, o: Ordering)
    requires
        all_are(a, f, o),
        all_are(b, f, o),
    ensures
        all_are(a + b, f, o),
{
    assert forall|i: int| 0 <= i < (a + b).len() implies f(#[trigger] (a + b)[i].key, (a + b)[i].value) == o by {
        if i < a.len() {
            assert((a + b)[i] == a[i]);
        } else {
            assert((a + b)[i] == b[i - a.len()]);
        }
    }
}

/// If the last key of `a` is before the position, so is every key of `a`.
pub proof fn lemma_less_prefix<K, V>(a: Seq<Item<K, V>>, b: Seq<Item<K, V>>, f: spec_fn(K, V) -> Ordering)
    requires
        monotone(a + b, f),
        a.len() > 0,
        f(a.last().key, a.last().value) == Ordering::Less,
    ensures
        all_are(a, f, Ordering::Less),
{
    assert(a + b =~= a.drop_last() + seq![a.last()] + b);
    lemma_monotone_pivot(a.drop_last(), a.last(), b, f);
    assert forall|i: int| 0 <= i < a.len() implies f(#[trigger] a[i].key, a[i].value) == Ordering::Less by {
        if i < a.len() - 1 {
            assert(a[i] == a.drop_last()[i]);
        }
    }
}

/// The key of `s` at index `n`, as a sequence, when there is a hit.
pub open spec fn hit_part<K, V>(s: Seq<Item<K, V>>, n: int, hit: Option<Entry<K, V>>) -> Seq<Item<K, V>> {
    match hit {
        Some(_) => seq![s[n]],
        None => Seq::empty(),
    }
}

/// `res` is `t` unzipped: its parts are well formed, of no higher rank, and
/// hold the keys of `t` in order, the hit being the key between them.
pub open spec fn unzipped<K, V>(t: Tree<K, V>, res: (Tree<K, V>, Option<Entry<K, V>>, Tree<K, V>)) -> bool {
    let (l, hit, r) = res;
    &&& tree_wf(l)
    &&& tree_wf(r)
    &&& top(l) <= top(t)
    &&& top(r) <= top(t)
    &&& tree_items(t) == tree_items(l) + hit_part(tree_items(t), len_of(tree_items(l)), hit) + tree_items(r)
    &&& hit matches Some(e) ==> {
        &&& e.value is Own
        &&& tree_items(t)[len_of(tree_items(l))].key == e.key
        &&& tree_items(t)[len_of(tree_items(l))].value == value_of(e.value)
    }
}

/// The hit of `res`, if any, keeps its left subtree: a well-formed tree whose
/// keys are the last ones of the left part.
pub open spec fn hit_left<K, V>(res: (Tree<K, V>, Option<Entry<K, V>>, Tree<K, V>)) -> bool {
    res.1 matches Some(e) ==> {
        let l = tree_items(res.0);
        let h = tree_items(e.left);
        &&& tree_wf(e.left)
        &&& h.len() <= l.len()
        &&& l.skip(l.len() - h.len()) == h
    }
}

/// A left part that extends the left part of `sub` at the front keeps the
/// hit's left subtree at its end.
proof fn lemma_hit_left_extend<K, V>(
    res: (Tree<K, V>, Option<Entry<K, V>>, Tree<K, V>),
    sub: (Tree<K, V>, Option<Entry<K, V>>, Tree<K, V>),
    a: Seq<Item<K, V>>,
)
    requires
        hit_left(sub),
        tree_items(res.0) == a + tree_items(sub.0),
        res.1 == sub.1,
    ensures
        hit_left(res),
{
    if let Some(e) = res.1 {
        let x = tree_items(sub.0);
        let h = tree_items(e.left);
        assert((a + x).skip((a + x).len() - h.len()) =~= x.skip(x.len() - h.len()));
    }
}

/// Under a position `f`, the left part of `res` is before it, the right part
/// after it, and the hit at it.
pub open spec fn unzipped_at<K, V>(
    res: (Tree<K, V>, Option<Entry<K, V>>, Tree<K, V>),
    f: spec_fn(K, V) -> Ordering,
) -> bool {
    &&& all_are(tree_items(res.0), f, Ordering::Less)
    &&& all_are(tree_items(res.2), f, Ordering::Greater)
    &&& res.1 matches Some(e) ==> f(e.key, value_of(e.value)) == Ordering::Equal
}

/// Split a tree into the keys before a position, the entry at it (if any), and
/// the keys after it. `at` compares an entry to the position; see [`Items`].
pub fn unzip<K: Clone, V: Clone>(t: &Tree<K, V>, at: &impl Fn(&Entry<K, V>) -> Ordering) -> (res: (
    Tree<K, V>,
    Option<Entry<K, V>>,
    Tree<K, V>,
))
    requires
        tree_wf(*t),
        total(*at),
        clones_exact::<K, V>(),
    ensures
        unzipped(*t, res),
        hit_left(res),
        forall|f: spec_fn(K, V) -> Ordering|
            keyed_by(*at, f) && monotone(tree_items(*t), f) ==> unzipped_at(res, f),
    decreases tree_len(*t),
{
    let n = match t {
        None => {
            let res = (None, None, None);
            assert(tree_items(*t) =~= tree_items(res.0) + hit_part(tree_items(*t), 0, res.1) + tree_items(res.2));
            return res;
        },
        Some(n) => n,
    };
    let ghost es = root_entries(*t);
    let ghost rank = n.rank;
    let ghost rt = root_right(*t);
    proof {
        lemma_root_len(*t);
        lemma_entries_weight(es, rank);
        lemma_size_field(rt);
    }
    let (lo, e, hi) = n.items.split(at);
    proof {
        lemma_run_items_append(lo.0.entries@ + opt_seq(e), hi.0.entries@, rank);
        lemma_run_items_append(lo.0.entries@, opt_seq(e), rank);
        lemma_entries_weight(lo.0.entries@, rank);
        lemma_entries_weight(hi.0.entries@, rank);
        lemma_entries_weight_append(lo.0.entries@ + opt_seq(e), hi.0.entries@);
        lemma_entries_weight_append(lo.0.entries@, opt_seq(e));
        lemma_weight_zero(lo.0.entries@, rank);
        lemma_weight_zero(hi.0.entries@, rank);
    }
    if let Some(e) = e {
        // Found in this node: its left subtree ends the left result.
        let left = share(&e.left);
        proof {
            lemma_run_cons(e, Seq::empty(), rank);
            assert(seq![e] + Seq::<Entry<K, V>>::empty() =~= seq![e]);
            assert(opt_seq(Some(e)) == seq![e]);
            lemma_size_field(left);
        }
        let l = node(n.rank, lo, left);
        let r = node(n.rank, hi, share(&n.right));
        let res = (l, Some(e), r);
        proof {
            let a = run_items(lo.0.entries@, rank) + tree_items(left);
            let b = run_items(hi.0.entries@, rank) + tree_items(rt);
            if lo.0.weight != 0 {
                lemma_node_wf(l);
            }
            if hi.0.weight != 0 {
                lemma_node_wf(r);
            }
            assert(tree_items(l) =~= a);
            assert(tree_items(r) =~= b);
            assert(tree_items(*t) =~= a + seq![item_of(e, rank)] + b);
            lemma_unzip_found(*t, res, a, item_of(e, rank), b, es, lo.0.entries@, *at);
            assert(es =~= lo.0.entries@ + seq![e] + hi.0.entries@);
            assert(es[len_of(lo.0.entries@)] == e);
            lemma_run_wf_at(es, rank, len_of(lo.0.entries@));
            assert(a.skip(a.len() - tree_items(left).len()) =~= tree_items(left));
        }
        return res;
    }
    if hi.weight() == 0 {
        // Every key here precedes the position: continue in the right subtree.
        let (l1, hit, r) = unzip(&n.right, at);
        proof {
            assert(lo.0.entries@ =~= es);
            lemma_size_field(l1);
        }
        let l = node(n.rank, lo, l1);
        let res = (l, hit, r);
        proof {
            lemma_node_wf(l);
            lemma_unzip_right(*t, res, (l1, hit, r), *at);
            lemma_hit_left_extend(res, (l1, hit, r), run_items(root_entries(*t), t->0.rank));
        }
        return res;
    }
    // The position lies in the left subtree of the first greater entry.
    let (first, rest) = hi.shift();
    proof {
        let hs = hi.0.entries@;
        lemma_run_cons(hs[0], hs.drop_first(), rank);
        assert(seq![hs[0]] + hs.drop_first() =~= hs);
        assert(es[len_of(lo.0.entries@)] == first);
        lemma_entry_left_len(*t, len_of(lo.0.entries@));
        lemma_entries_weight(rest.0.entries@, rank);
    }
    let (l1, hit, r1) = unzip(&first.left, at);
    proof {
        lemma_size_field(l1);
        lemma_size_field(r1);
    }
    let ne = Entry { key: first.key, value: first.value, left: r1 };
    let items = rest.unshift(ne);
    proof {
        lemma_run_cons(ne, rest.0.entries@, rank);
        lemma_entries_weight(items.0.entries@, rank);
    }
    let right = node(n.rank, items, share(&n.right));
    let l = node(n.rank, lo, l1);
    let res = (l, hit, right);
    proof {
        lemma_weight_zero(items.0.entries@, rank);
        lemma_node_wf(right);
        if lo.0.weight != 0 {
            lemma_node_wf(l);
        }
        assert(es =~= lo.0.entries@ + seq![first] + rest.0.entries@);
        lemma_unzip_left(*t, res, (l1, hit, r1), first, lo.0.entries@, rest.0.entries@, *at);
        lemma_hit_left_extend(res, (l1, hit, r1), run_items(lo.0.entries@, rank));
    }
    res
}

/// The step of [`unzip`] that finds the position at an entry of the root.
proof fn lemma_unzip_found<K, V, F: Fn(&Entry<K, V>) -> Ordering>(
    t: Tree<K, V>,
    res: (Tree<K, V>, Option<Entry<K, V>>, Tree<K, V>),
    a: Seq<Item<K, V>>,
    x: Item<K, V>,
    b: Seq<Item<K, V>>,
    es: Seq<Entry<K, V>>,
    lo: Seq<Entry<K, V>>,
    at: F,
)
    requires
        tree_wf(res.0),
        tree_wf(res.2),
        top(res.0) <= top(t),
        top(res.2) <= top(t),
        res.1 matches Some(e) && e.value is Own && x.key == e.key && x.value == value_of(e.value),
        tree_items(res.0) == a,
        tree_items(res.2) == b,
        tree_items(t) == a + seq![x] + b,
        lo.len() < es.len(),
        es[len_of(lo)] == res.1->0,
        forall|f: spec_fn(K, V) -> Ordering|
            keyed_by(at, f) ==> splits_at(es, len_of(lo), true, f),
    ensures
        unzipped(t, res),
        forall|f: spec_fn(K, V) -> Ordering|
            keyed_by(at, f) && monotone(tree_items(t), f) ==> unzipped_at(res, f),
{
    assert(tree_items(t)[len_of(a)] == x);
    assert(tree_items(t) =~= tree_items(res.0) + hit_part(tree_items(t), len_of(tree_items(res.0)), res.1) + tree_items(res.2));
    assert forall|f: spec_fn(K, V) -> Ordering|
        keyed_by(at, f) && monotone(tree_items(t), f) implies unzipped_at(res, f) by {
        lemma_monotone_pivot(a, x, b, f);
    }
}

/// The step of [`unzip`] that continues in the right subtree of the root.
proof fn lemma_unzip_right<K, V, F: Fn(&Entry<K, V>) -> Ordering>(
    t: Tree<K, V>,
    res: (Tree<K, V>, Option<Entry<K, V>>, Tree<K, V>),
    sub: (Tree<K, V>, Option<Entry<K, V>>, Tree<K, V>),
    at: F,
)
    requires
        tree_wf(t),
        t is Some,
        unzipped(root_right(t), sub),
        forall|f: spec_fn(K, V) -> Ordering|
            keyed_by(at, f) && monotone(tree_items(root_right(t)), f) ==> unzipped_at(sub, f),
        forall|f: spec_fn(K, V) -> Ordering|
            keyed_by(at, f) ==> splits_at(root_entries(t), len_of(root_entries(t)), false, f),
        tree_wf(res.0),
        tree_items(res.0) == run_items(root_entries(t), t->0.rank) + tree_items(sub.0),
        top(res.0) == t->0.rank,
        res.1 == sub.1,
        res.2 == sub.2,
    ensures
        unzipped(t, res),
        forall|f: spec_fn(K, V) -> Ordering|
            keyed_by(at, f) && monotone(tree_items(t), f) ==> unzipped_at(res, f),
{
    let es = root_entries(t);
    let rank = t->0.rank;
    let rs = tree_items(root_right(t));
    let a = run_items(es, rank);
    lemma_root_len(t);
    let h = hit_part(rs, len_of(tree_items(sub.0)), sub.1);
    assert(tree_items(t) =~= tree_items(res.0) + h + tree_items(res.2));
    if sub.1 is Some {
        assert(tree_items(t)[len_of(tree_items(res.0))] == rs[len_of(tree_items(sub.0))]);
    }
    assert(h =~= hit_part(tree_items(t), len_of(tree_items(res.0)), res.1));
    assert forall|f: spec_fn(K, V) -> Ordering|
        keyed_by(at, f) && monotone(tree_items(t), f) implies unzipped_at(res, f) by {
        lemma_monotone_parts(a, rs, f);
        lemma_run_last(es, rank);
        assert(f(es[es.len() - 1].key, value_of(es[es.len() - 1].value)) == Ordering::Less);
        lemma_less_prefix(a, rs, f);
        assert(unzipped_at(sub, f));
        lemma_all_are_append(a, tree_items(sub.0), f, Ordering::Less);
    }
}

/// The step of [`unzip`] that continues in the left subtree of the first
/// entry after the position.
#[verifier::rlimit(40)]
proof fn lemma_unzip_left<K, V, F: Fn(&Entry<K, V>) -> Ordering>(
    t: Tree<K, V>,
    res: (Tree<K, V>, Option<Entry<K, V>>, Tree<K, V>),
    sub: (Tree<K, V>, Option<Entry<K, V>>, Tree<K, V>),
    first: Entry<K, V>,
    lo: Seq<Entry<K, V>>,
    rest: Seq<Entry<K, V>>,
    at: F,
)
    requires
        tree_wf(t),
        t is Some,
        root_entries(t) == lo + seq![first] + rest,
        unzipped(first.left, sub),
        forall|f: spec_fn(K, V) -> Ordering|
            keyed_by(at, f) && monotone(tree_items(first.left), f) ==> unzipped_at(sub, f),
        forall|f: spec_fn(K, V) -> Ordering|
            keyed_by(at, f) ==> splits_at(root_entries(t), len_of(lo), false, f),
        tree_wf(res.0),
        tree_wf(res.2),
        top(res.0) <= t->0.rank,
        top(res.2) == t->0.rank,
        tree_items(res.0) == run_items(lo, t->0.rank) + tree_items(sub.0),
        tree_items(res.2) == tree_items(sub.2) + seq![item_of(first, t->0.rank)]
            + run_items(rest, t->0.rank) + tree_items(root_right(t)),
        res.1 == sub.1,
    ensures
        unzipped(t, res),
        forall|f: spec_fn(K, V) -> Ordering|
            keyed_by(at, f) && monotone(tree_items(t), f) ==> unzipped_at(res, f),
{
    let es = root_entries(t);
    let rank = t->0.rank;
    let a = run_items(lo, rank);
    let fi = item_of(first, rank);
    let c = run_items(rest, rank) + tree_items(root_right(t));
    let fl = tree_items(first.left);
    lemma_root_len(t);
    lemma_run_items_append(lo + seq![first], rest, rank);
    lemma_run_items_append(lo, seq![first], rank);
    lemma_run_cons(first, Seq::empty(), rank);
    assert(seq![first] + Seq::<Entry<K, V>>::empty() =~= seq![first]);
    assert(tree_items(t) =~= a + fl + seq![fi] + c);
    let h = hit_part(fl, len_of(tree_items(sub.0)), sub.1);
    assert(tree_items(t) =~= tree_items(res.0) + h + tree_items(res.2));
    if sub.1 is Some {
        assert(tree_items(t)[len_of(tree_items(res.0))] == fl[len_of(tree_items(sub.0))]);
    }
    assert(h =~= hit_part(tree_items(t), len_of(tree_items(res.0)), res.1));
    assert(tree_items(res.2) =~= tree_items(sub.2) + seq![fi] + c);
    lemma_unzip_left_at(tree_items(t), res, sub, first, lo, rest, rank, a, fl, c, at);
}

/// The positional part of the left step of [`unzip`].
proof fn lemma_unzip_left_at<K, V, F: Fn(&Entry<K, V>) -> Ordering>(
    s: Seq<Item<K, V>>,
    res: (Tree<K, V>, Option<Entry<K, V>>, Tree<K, V>),
    sub: (Tree<K, V>, Option<Entry<K, V>>, Tree<K, V>),
    first: Entry<K, V>,
    lo: Seq<Entry<K, V>>,
    rest: Seq<Entry<K, V>>,
    rank: u32,
    a: Seq<Item<K, V>>,
    fl: Seq<Item<K, V>>,
    c: Seq<Item<K, V>>,
    at: F,
)
    requires
        a == run_items(lo, rank),
        s == a + fl + seq![item_of(first, rank)] + c,
        forall|f: spec_fn(K, V) -> Ordering|
            keyed_by(at, f) && monotone(fl, f) ==> unzipped_at(sub, f),
        forall|f: spec_fn(K, V) -> Ordering|
            keyed_by(at, f) ==> splits_at(lo + seq![first] + rest, len_of(lo), false, f),
        tree_items(res.0) == a + tree_items(sub.0),
        tree_items(res.2) == tree_items(sub.2) + seq![item_of(first, rank)] + c,
        res.1 == sub.1,
    ensures
        forall|f: spec_fn(K, V) -> Ordering|
            keyed_by(at, f) && monotone(s, f) ==> unzipped_at(res, f),
{
    let es = lo + seq![first] + rest;
    assert forall|f: spec_fn(K, V) -> Ordering|
        keyed_by(at, f) && monotone(s, f) implies unzipped_at(res, f) by {
        assert(es[len_of(lo)] == first);
        if lo.len() > 0 {
            lemma_run_last(lo, rank);
            assert(es[len_of(lo) - 1] == lo.last());
        }
        lemma_left_step(a, fl, item_of(first, rank), c, tree_items(sub.0), tree_items(sub.2), f);
        assert(unzipped_at(sub, f));
    }
}

/// The positional part of the left step of [`unzip`], on sequences.
proof fn lemma_left_step<K, V>(
    a: Seq<Item<K, V>>,
    fl: Seq<Item<K, V>>,
    fi: Item<K, V>,
    c: Seq<Item<K, V>>,
    l0: Seq<Item<K, V>>,
    r0: Seq<Item<K, V>>,
    f: spec_fn(K, V) -> Ordering,
)
    requires
        monotone(a + fl + seq![fi] + c, f),
        f(fi.key, fi.value) != Ordering::Less,
        f(fi.key, fi.value) != Ordering::Equal,
        a.len() > 0 ==> f(a.last().key, a.last().value) == Ordering::Less,
    ensures
        monotone(fl, f),
        monotone(fl, f) ==> (all_are(l0, f, Ordering::Less) && all_are(r0, f, Ordering::Greater))
            ==> (all_are(a + l0, f, Ordering::Less) && all_are(r0 + seq![fi] + c, f, Ordering::Greater)),
{
    lemma_monotone_pivot(a + fl, fi, c, f);
    assert((a + fl) + (seq![fi] + c) =~= a + fl + seq![fi] + c);
    lemma_monotone_parts(a + fl, seq![fi] + c, f);
    lemma_monotone_parts(a, fl, f);
    if a.len() > 0 {
        lemma_less_prefix(a, fl, f);
    }
    if all_are(l0, f, Ordering::Less) && all_are(r0, f, Ordering::Greater) {
        lemma_all_are_append(a, l0, f, Ordering::Less);
        assert(all_are(seq![fi], f, Ordering::Greater));
        lemma_all_are_append(r0, seq![fi], f, Ordering::Greater);
        lemma_all_are_append(r0 + seq![fi], c, f, Ordering::Greater);
    }
}


// ---------------------------------------------------------------------------
// Insertion, deletion, search
// ---------------------------------------------------------------------------

/// The number of leading keys of `s` that `f` places before the position.
pub open spec fn lead<K, V>(s: Seq<Item<K, V>>, f: spec_fn(K, V) -> Ordering) -> int
    decreases s.len(),
{
    if s.len() == 0 {
        0
    } else if f(s[0].key, s[0].value) == Ordering::Less {
        1 + lead(s.drop_first(), f)
    } else {
        0
    }
}

/// Whether the key of `s` just after the leading ones is at the position.
pub open spec fn hits<K, V>(s: Seq<Item<K, V>>, f: spec_fn(K, V) -> Ordering) -> int {
    if lead(s, f) < s.len() && f(s[lead(s, f)].key, s[lead(s, f)].value) == Ordering::Equal {
        1
    } else {
        0
    }
}

/// `s` with the key at the position of `f` (if any) replaced by `mid`.
pub open spec fn spliced<K, V>(s: Seq<Item<K, V>>, f: spec_fn(K, V) -> Ordering, mid: Seq<Item<K, V>>) -> Seq<Item<K, V>> {
    s.take(lead(s, f)) + mid + s.skip(lead(s, f) + hits(s, f))
}

/// Leading keys before the position, then a key that is not: the count of
/// leading keys is the length of the first part.
pub proof fn lemma_lead<K, V>(a: Seq<Item<K, V>>, b: Seq<Item<K, V>>, f: spec_fn(K, V) -> Ordering)
    requires
        all_are(a, f, Ordering::Less),
        b.len() > 0 ==> f(b[0].key, b[0].value) != Ordering::Less,
    ensures
        lead(a + b, f) == a.len(),
    decreases a.len(),
{
    if a.len() == 0 {
        assert(a + b =~= b);
    } else {
        assert((a + b).drop_first() =~= a.drop_first() + b);
        assert((a + b)[0] == a[0]);
        lemma_lead(a.drop_first(), b, f);
    }
}

/// A sequence split into keys before a position, at most one key at it, and
/// keys after it: the parts are the leading keys, the hit, and the rest.
pub proof fn lemma_split_parts<K, V>(
    s: Seq<Item<K, V>>,
    a: Seq<Item<K, V>>,
    h: Seq<Item<K, V>>,
    b: Seq<Item<K, V>>,
    f: spec_fn(K, V) -> Ordering,
)
    requires
        s == a + h + b,
        all_are(a, f, Ordering::Less),
        all_are(b, f, Ordering::Greater),
        h.len() <= 1,
        h.len() == 1 ==> f(h[0].key, h[0].value) == Ordering::Equal,
    ensures
        a == s.take(lead(s, f)),
        b == s.skip(lead(s, f) + hits(s, f)),
        hits(s, f) == h.len(),
{
    assert(s =~= a + (h + b));
    if h.len() == 1 {
        assert((h + b)[0] == h[0]);
    } else {
        assert(h + b =~= b);
    }
    lemma_lead(a, h + b, f);
    assert(s.take(lead(s, f)) =~= a);
    if h.len() == 1 {
        assert(s[lead(s, f)] == h[0]);
        assert(s.skip(lead(s, f) + 1) =~= b);
    } else {
        if b.len() > 0 {
            assert(s[lead(s, f)] == b[0]);
        }
        assert(s.skip(lead(s, f)) =~= b);
    }
}

/// An unzipped tree, under a position, is the part of the keys before it and
/// the part after it.
pub proof fn lemma_unzipped_parts<K, V>(
    t: Tree<K, V>,
    res: (Tree<K, V>, Option<Entry<K, V>>, Tree<K, V>),
    f: spec_fn(K, V) -> Ordering,
)
    requires
        unzipped(t, res),
        unzipped_at(res, f),
    ensures
        tree_items(res.0) == tree_items(t).take(lead(tree_items(t), f)),
        tree_items(res.2) == tree_items(t).skip(lead(tree_items(t), f) + hits(tree_items(t), f)),
        res.1 is Some == (hits(tree_items(t), f) == 1),
{
    let s = tree_items(t);
    let a = tree_items(res.0);
    let h = hit_part(s, len_of(a), res.1);
    let b = tree_items(res.2);
    assert(s =~= a + (h + b));
    if res.1 is Some {
        assert((h + b)[0] == s[len_of(a)]);
    } else {
        assert(h + b =~= b);
    }
    lemma_lead(a, h + b, f);
    assert(s.take(lead(s, f)) =~= a);
    if res.1 is Some {
        assert(s.skip(lead(s, f) + 1) =~= b);
    } else {
        if b.len() > 0 {
            assert(s[lead(s, f)] == b[0]);
        }
        assert(s.skip(lead(s, f)) =~= b);
    }
}

/// Insert a single-entry tree, replacing any entry at the same position.
pub fn insert<K: Clone, V: Clone>(
    t: &Tree<K, V>,
    at: &impl Fn(&Entry<K, V>) -> Ordering,
    one: &Tree<K, V>,
) -> (res: Tree<K, V>)
    requires
        tree_wf(*t),
        tree_wf(*one),
        tree_len(*t) + tree_len(*one) <= usize::MAX,
        total(*at),
        clones_exact::<K, V>(),
    ensures
        tree_wf(res),
        forall|f: spec_fn(K, V) -> Ordering|
            keyed_by(*at, f) && monotone(tree_items(*t), f)
                ==> tree_items(res) == spliced(tree_items(*t), f, tree_items(*one)),
{
    let ghost s = tree_items(*t);
    let (l, hit, r) = unzip(t, at);
    proof {
        assert(s.len() == tree_len(l) + hit_part(s, len_of(tree_items(l)), hit).len() + tree_len(r));
    }
    let lo = zip(&l, one);
    let res = zip(&lo, &r);
    proof {
        assert forall|f: spec_fn(K, V) -> Ordering|
            keyed_by(*at, f) && monotone(tree_items(*t), f)
            implies tree_items(res) == spliced(tree_items(*t), f, tree_items(*one)) by {
            lemma_unzipped_parts(*t, (l, hit, r), f);
        }
    }
    res
}

/// Remove the entry at a position, if any.
pub fn remove<K: Clone, V: Clone>(t: &Tree<K, V>, at: &impl Fn(&Entry<K, V>) -> Ordering) -> (res: Tree<K, V>)
    requires
        tree_wf(*t),
        total(*at),
        clones_exact::<K, V>(),
    ensures
        tree_wf(res),
        top(res) <= top(*t),
        forall|f: spec_fn(K, V) -> Ordering|
            keyed_by(*at, f) && monotone(tree_items(*t), f)
                ==> tree_items(res) == spliced(tree_items(*t), f, Seq::empty()),
{
    let ghost s = tree_items(*t);
    let (l, hit, r) = unzip(t, at);
    proof {
        assert(s.len() == tree_len(l) + hit_part(s, len_of(tree_items(l)), hit).len() + tree_len(r));
    }
    let res = zip(&l, &r);
    proof {
        assert forall|f: spec_fn(K, V) -> Ordering|
            keyed_by(*at, f) && monotone(tree_items(*t), f)
            implies tree_items(res) == spliced(tree_items(*t), f, Seq::empty()) by {
            lemma_unzipped_parts(*t, (l, hit, r), f);
            assert(tree_items(res) =~= spliced(tree_items(*t), f, Seq::empty()));
        }
    }
    res
}


/// The first entry at or after a position, without allocating.
pub fn find<'a, K: Clone, V: Clone>(t: &'a Tree<K, V>, at: &impl Fn(&Entry<K, V>) -> Ordering) -> (r: Option<
    &'a Entry<K, V>,
>)
    requires
        tree_wf(*t),
        total(*at),
    ensures
        forall|f: spec_fn(K, V) -> Ordering|
            keyed_by(*at, f) && monotone(tree_items(*t), f) ==> {
                let s = tree_items(*t);
                &&& r is None <==> lead(s, f) == s.len()
                &&& r matches Some(e) ==> s[lead(s, f)].key == e.key && s[lead(s, f)].value == value_of(e.value)
            },
{
    let ghost s = tree_items(*t);
    let mut cur = t;
    let mut best: Option<&Entry<K, V>> = None;
    let ghost mut p: Seq<Item<K, V>> = Seq::empty();
    let ghost mut q: Seq<Item<K, V>> = Seq::empty();
    assert(s =~= p + tree_items(*cur) + q);
    while cur.is_some()
        invariant
            tree_wf(*cur),
            total(*at),
            s == tree_items(*t),
            s == p + tree_items(*cur) + q,
            best is None ==> q.len() == 0,
            best matches Some(e) ==> q.len() > 0 && q[0].key == e.key && q[0].value == value_of(e.value),
            forall|f: spec_fn(K, V) -> Ordering|
                keyed_by(*at, f) && monotone(s, f) ==> {
                    &&& all_are(p, f, Ordering::Less)
                    &&& (best matches Some(e) ==> f(e.key, value_of(e.value)) != Ordering::Less)
                },
        decreases tree_len(*cur),
    {
        if let Some(n) = cur {
        let ghost es = root_entries(*cur);
        let ghost rank = n.rank;
        let ghost rt = root_right(*cur);
        proof {
            lemma_root_len(*cur);
        }
        let found = n.items.find(at);
        let ghost i = choose|i: int| found_at(es, i, *at, found);
        proof {
            assert(es =~= es.take(i) + es.skip(i));
            lemma_run_items_append(es.take(i), es.skip(i), rank);
        }
        match found {
            None => {
                proof {
                    assert(es.take(i) =~= es);
                    let ghost a = run_items(es, rank);
                    assert forall|f: spec_fn(K, V) -> Ordering|
                        keyed_by(*at, f) && monotone(s, f) implies all_are(p + a, f, Ordering::Less) by {
                        assert(s =~= p + (a + (tree_items(rt) + q)));
                        lemma_monotone_parts(p, a + (tree_items(rt) + q), f);
                        lemma_run_last(es, rank);
                        lemma_less_prefix(a, tree_items(rt) + q, f);
                        lemma_all_are_append(p, a, f, Ordering::Less);
                    }
                    p = p + a;
                    assert(s =~= p + tree_items(rt) + q);
                }
                cur = &n.right;
            },
            Some(e) => {
                let o = at(e);
                proof {
                    lemma_run_cons(es[i], es.skip(i + 1), rank);
                    assert(es.skip(i) =~= seq![es[i]] + es.skip(i + 1));
                }
                let ghost a = run_items(es.take(i), rank);
                let ghost x = item_of(es[i], rank);
                let ghost c = run_items(es.skip(i + 1), rank) + tree_items(rt) + q;
                proof {
                    assert(s =~= (p + a + tree_items(es[i].left)) + seq![x] + c);
                }
                match o {
                    Ordering::Equal => {
                        proof {
                            assert forall|f: spec_fn(K, V) -> Ordering|
                                keyed_by(*at, f) && monotone(s, f) implies {
                                    &&& lead(s, f) < s.len()
                                    &&& s[lead(s, f)] == x
                                    &&& f(x.key, x.value) == Ordering::Equal
                                } by {
                                assert(f(e.key, value_of(e.value)) == Ordering::Equal);
                                lemma_monotone_pivot(p + a + tree_items(es[i].left), x, c, f);
                                lemma_lead(p + a + tree_items(es[i].left), seq![x] + c, f);
                                assert(s =~= (p + a + tree_items(es[i].left)) + (seq![x] + c));
                            }
                        }
                        return Some(e);
                    },
                    _ => {
                        proof {
                            lemma_entry_left_len(*cur, i);
                            assert forall|f: spec_fn(K, V) -> Ordering|
                                keyed_by(*at, f) && monotone(s, f) implies all_are(p + a, f, Ordering::Less) by {
                                assert(s =~= (p + a + tree_items(es[i].left)) + (seq![x] + c));
                                lemma_monotone_parts(p + a + tree_items(es[i].left), seq![x] + c, f);
                                lemma_monotone_parts(p + a, tree_items(es[i].left), f);
                                lemma_monotone_parts(p, a, f);
                                if i > 0 {
                                    lemma_run_last(es.take(i), rank);
                                    assert(es.take(i).last() == es[i - 1]);
                                    assert(p + a + tree_items(es[i].left) =~= p + (a + tree_items(es[i].left)));
                                    lemma_monotone_parts(p, a + tree_items(es[i].left), f);
                                    lemma_less_prefix(a, tree_items(es[i].left), f);
                                }
                                lemma_all_are_append(p, a, f, Ordering::Less);
                            }
                            p = p + a;
                            q = seq![x] + c;
                            assert(s =~= p + tree_items(es[i].left) + q);
                        }
                        best = Some(e);
                        cur = &e.left;
                    },
                }
            },
        }
        }
    }
    proof {
        assert(tree_items(*cur) =~= Seq::<Item<K, V>>::empty());
        assert forall|f: spec_fn(K, V) -> Ordering|
            keyed_by(*at, f) && monotone(s, f) implies {
                &&& best is None <==> lead(s, f) == s.len()
                &&& best matches Some(e) ==> s[lead(s, f)].key == e.key && s[lead(s, f)].value == value_of(e.value)
            } by {
            assert(s =~= p + q);
            lemma_lead(p, q, f);
        }
    }
    best
}


// ---------------------------------------------------------------------------
// In-order traversal
// ---------------------------------------------------------------------------

/// `refs` are entries with the keys and values of `s`, in order.
pub open spec fn matches_items<K, V>(refs: Seq<&Entry<K, V>>, s: Seq<Item<K, V>>) -> bool {
    &&& refs.len() == s.len()
    &&& forall|i: int| 0 <= i < s.len() ==> (#[trigger] refs[i]).key == s[i].key && value_of(refs[i].value) == s[i].value
}

/// Matching parts make a matching whole.
pub proof fn lemma_matches_append<K, V>(
    a: Seq<&Entry<K, V>>,
    s: Seq<Item<K, V>>,
    b: Seq<&Entry<K, V>>,
    u: Seq<Item<K, V>>,
)
    requires
        matches_items(a, s),
        matches_items(b, u),
    ensures
        matches_items(a + b, s + u),
{
    assert forall|i: int| 0 <= i < (s + u).len() implies (#[trigger] (a + b)[i]).key == (s + u)[i].key
        && value_of((a + b)[i].value) == (s + u)[i].value by {
        if i < s.len() {
            assert((a + b)[i] == a[i]);
        } else {
            assert((a + b)[i] == b[i - s.len()]);
        }
    }
}

/// Append the entries of `t` to `out`, in order.
fn push_entries<'a, K, V>(t: &'a Tree<K, V>, out: &mut Vec<&'a Entry<K, V>>)
    requires
        tree_wf(*t),
    ensures
        final(out)@.len() == old(out)@.len() + tree_len(*t),
        final(out)@.take(old(out)@.len() as int) == old(out)@,
        matches_items(final(out)@.skip(old(out)@.len() as int), tree_items(*t)),
    decreases tree_len(*t),
{
    let ghost start = out@;
    match t {
        None => {
            assert(out@.take(start.len() as int) =~= start);
            assert(out@.skip(start.len() as int) =~= Seq::<&Entry<K, V>>::empty());
        },
        Some(n) => {
            let ghost es = root_entries(*t);
            let ghost rank = n.rank;
            proof {
                lemma_root_len(*t);
            }
            let items = n.items.0.entries.as_slice();
            let mut j: usize = 0;
            assert(out@.skip(start.len() as int) =~= Seq::<&Entry<K, V>>::empty());
            assert(es.take(0) =~= Seq::<Entry<K, V>>::empty());
            while j < items.len()
                invariant
                    items@ == es,
                    es == root_entries(*t),
                    rank == t->0.rank,
                    tree_wf(*t),
                    j <= es.len(),
                    out@.take(start.len() as int) == start,
                    out@.len() == start.len() + run_items(es.take(j as int), rank).len(),
                    matches_items(out@.skip(start.len() as int), run_items(es.take(j as int), rank)),
                decreases es.len() - j,
            {
                let e = &items[j];
                proof {
                    lemma_entry_left_len(*t, j as int);
                    lemma_run_wf_at(es, rank, j as int);
                    lemma_run_items_append(es.take(j as int), es.take(j as int + 1).skip(j as int), rank);
                }
                let ghost before = out@;
                push_entries(&e.left, out);
                let ghost mid = out@;
                out.push(e);
                proof {
                    assert(es.take(j as int + 1) =~= es.take(j as int) + seq![es[j as int]]);
                    lemma_run_items_append(es.take(j as int), seq![es[j as int]], rank);
                    lemma_run_cons(es[j as int], Seq::empty(), rank);
                    assert(seq![es[j as int]] + Seq::<Entry<K, V>>::empty() =~= seq![es[j as int]]);
                    assert(out@.take(start.len() as int) =~= start);
                    assert(out@.skip(start.len() as int) =~= before.skip(start.len() as int)
                        + mid.skip(before.len() as int) + seq![e]);
                    lemma_matches_append(before.skip(start.len() as int), run_items(es.take(j as int), rank),
                        mid.skip(before.len() as int), tree_items(e.left));
                    lemma_matches_append(before.skip(start.len() as int) + mid.skip(before.len() as int),
                        run_items(es.take(j as int), rank) + tree_items(e.left), seq![e], seq![item_of(es[j as int], rank)]);
                }
                j = j + 1;
            }
            let ghost before = out@;
            push_entries(&n.right, out);
            proof {
                assert(es.take(j as int) =~= es);
                assert(out@.take(start.len() as int) =~= start);
                assert(out@.skip(start.len() as int) =~= before.skip(start.len() as int) + out@.skip(before.len() as int));
                lemma_matches_append(before.skip(start.len() as int), run_items(es, rank),
                    out@.skip(before.len() as int), tree_items(root_right(*t)));
            }
        },
    }
}

/// The entries of a tree, in order, as a list of references.
pub(crate) fn entry_list<'a, K, V>(t: &'a Tree<K, V>) -> (r: Vec<&'a Entry<K, V>>)
    requires
        tree_wf(*t),
    ensures
        matches_items(r@, tree_items(*t)),
{
    let mut list: Vec<&'a Entry<K, V>> = Vec::new();
    push_entries(t, &mut list);
    assert(list@.skip(0) =~= list@);
    list
}

/// What a frame `(n, j)` of the cursor has left to give: entry `j` of `n`,
/// then the later entries of `n` with their left subtrees, then `n`'s right
/// subtree.
pub open spec fn frame_items<K, V>(n: Arc<Node<K, V>>, j: int) -> Seq<Item<K, V>> {
    let es = n.items.0.entries@;
    seq![item_of(es[j], n.rank)] + run_items(es.skip(j + 1), n.rank) + tree_items(n.right)
}

/// What a stack of frames has left to give, from the top frame down.
pub open spec fn stack_items<'a, K, V>(st: Seq<(&'a Arc<Node<K, V>>, usize)>) -> Seq<Item<K, V>>
    decreases st.len(),
{
    if st.len() == 0 {
        Seq::empty()
    } else {
        frame_items(*st.last().0, st.last().1 as int) + stack_items(st.drop_last())
    }
}

/// Every frame is an entry of a well-formed node.
pub open spec fn frames_ok<'a, K, V>(st: Seq<(&'a Arc<Node<K, V>>, usize)>) -> bool {
    forall|i: int| 0 <= i < st.len() ==> {
        &&& tree_wf(Some(*(#[trigger] st[i]).0))
        &&& st[i].1 < st[i].0.items.0.entries@.len()
    }
}

/// A lazy, in-order cursor over the entries of a tree: it holds the path
/// from the root to the next entry, and walks on only when asked.
pub struct Entries<'a, K, V> {
    stack: Vec<(&'a Arc<Node<K, V>>, usize)>,
}

impl<'a, K, V> Entries<'a, K, V> {
    /// The items the cursor has left to give, in order.
    pub closed spec fn remaining(&self) -> Seq<Item<K, V>> {
        stack_items(self.stack@)
    }

    /// The cursor's path is made of entries of well-formed nodes.
    pub closed spec fn wf(&self) -> bool {
        &&& frames_ok(self.stack@)
        &&& stack_items(self.stack@).len() <= usize::MAX
    }

    /// Push the path to the first entry of `t`.
    fn descend(&mut self, t: &'a Tree<K, V>)
        requires
            old(self).wf(),
            tree_wf(*t),
            tree_len(*t) + old(self).remaining().len() <= usize::MAX,
        ensures
            final(self).wf(),
            final(self).remaining() == tree_items(*t) + old(self).remaining(),
    {
        let ghost goal = tree_items(*t) + self.remaining();
        let mut cur = t;
        assert(tree_items(*cur) + stack_items(self.stack@) == goal);
        while cur.is_some()
            invariant
                tree_wf(*cur),
                frames_ok(self.stack@),
                tree_items(*cur) + stack_items(self.stack@) == goal,
                goal.len() <= usize::MAX,
            decreases tree_len(*cur),
        {
            let n = cur.as_ref().unwrap();
            let ghost es = n.items.0.entries@;
            proof {
                lemma_root_len(*cur);
                lemma_run_cons(es[0], es.drop_first(), n.rank);
                assert(seq![es[0]] + es.drop_first() =~= es);
                assert(es.skip(1) =~= es.drop_first());
                lemma_run_wf_at(es, n.rank, 0);
                lemma_entry_left_len(*cur, 0);
            }
            let ghost old_stack = self.stack@;
            self.stack.push((n, 0));
            proof {
                assert(self.stack@.drop_last() =~= old_stack);
                assert(tree_items(Some(*n)) == tree_items(es[0].left) + frame_items(*n, 0));
            }
            cur = &n.items.0.entries.as_slice()[0].left;
        }
    }

    /// The next entry, if any.
    pub fn next(&mut self) -> (r: Option<&'a Entry<K, V>>)
        requires
            old(self).wf(),
        ensures
            final(self).wf(),
            old(self).remaining().len() == 0 ==> r is None && final(self).remaining() == old(self).remaining(),
            old(self).remaining().len() > 0 ==> (r matches Some(e) && e.key == old(self).remaining()[0].key
                && value_of(e.value) == old(self).remaining()[0].value),
            old(self).remaining().len() > 0 ==> final(self).remaining() == old(self).remaining().drop_first(),
    {
        let ghost st = self.stack@;
        match self.stack.pop() {
            None => {
                None
            },
            Some(frame) => {
                let (n, j) = frame;
                let ghost es = n.items.0.entries@;
                let ghost rest = stack_items(st.drop_last());
                let items = n.items.0.entries.as_slice();
                let e = &items[j];
                proof {
                    assert(st.last() == frame);
                    assert(frames_ok(self.stack@)) by {
                        assert forall|i: int| 0 <= i < self.stack@.len() implies #[trigger] self.stack@[i] == st[i] by {}
                    }
                    assert(tree_wf(Some(*n)));
                    lemma_root_len(Some(*n));
                    lemma_run_wf_at(es, n.rank, j as int);
                }
                if j + 1 < items.len() {
                    proof {
                        let tail = es.skip(j + 1);
                        lemma_run_cons(tail[0], tail.drop_first(), n.rank);
                        assert(seq![tail[0]] + tail.drop_first() =~= tail);
                        assert(tail.drop_first() =~= es.skip(j + 2));
                        assert(tail[0] == es[j + 1]);
                        lemma_run_wf_at(es, n.rank, j + 1);
                        lemma_entry_left_len(Some(*n), j + 1);
                    }
                    let ghost mid = self.stack@;
                    self.stack.push((n, j + 1));
                    proof {
                        assert(self.stack@.drop_last() =~= mid);
                        assert(self.remaining() == frame_items(*n, j + 1) + rest);
                        assert(frame_items(*n, j as int) =~= seq![item_of(es[j as int], n.rank)]
                            + (tree_items(es[j + 1].left) + frame_items(*n, j + 1)));
                    }
                    self.descend(&items[j + 1].left);
                    proof {
                        assert(old(self).remaining() =~= seq![item_of(es[j as int], n.rank)] + self.remaining());
                    }
                } else {
                    proof {
                        assert(es.skip(j + 1) =~= Seq::<Entry<K, V>>::empty());
                        assert(frame_items(*n, j as int) =~= seq![item_of(es[j as int], n.rank)] + tree_items(n.right));
                        lemma_root_len(Some(*n));
                    }
                    self.descend(&n.right);
                    proof {
                        assert(old(self).remaining() =~= seq![item_of(es[j as int], n.rank)] + self.remaining());
                    }
                }
                Some(e)
            },
        }
    }

    /// The number of entries not yet visited, walking through them.
    pub fn count(self) -> (r: usize)
        requires
            self.wf(),
        ensures
            r == self.remaining().len(),
    {
        let mut c = self;
        let mut k: usize = 0;
        while c.stack.len() > 0
            invariant
                c.wf(),
                k + c.remaining().len() == self.remaining().len(),
                self.remaining().len() <= usize::MAX,
            decreases c.remaining().len(),
        {
            proof {
                let st = c.stack@;
                assert(stack_items(st).len() > 0);
            }
            let _ = c.next();
            k = k + 1;
        }
        assert(c.stack@ =~= Seq::<(&'a Arc<Node<K, V>>, usize)>::empty());
        k
    }
}

/// A lazy cursor over the entries of a tree, in order.
pub fn entries<'a, K, V>(t: &'a Tree<K, V>) -> (r: Entries<'a, K, V>)
    requires
        tree_wf(*t),
    ensures
        r.wf(),
        r.remaining() == tree_items(*t),
{
    let mut c = Entries { stack: Vec::new() };
    proof {
        lemma_size_field(*t);
        assert(c.remaining() =~= Seq::<Item<K, V>>::empty());
    }
    c.descend(t);
    assert(c.remaining() =~= tree_items(*t));
    c
}

// ---------------------------------------------------------------------------
// Shape: Definition 3 and history independence
// ---------------------------------------------------------------------------

/// One token of the shape of a tree, written out in order.
pub enum Tok<K, V> {
    Leaf,
    Open(u32),
    Key(K, V),
    Close,
}

/// The shape of a tree, with its ranks, keys and values, as a sequence of
/// tokens: `Open(rank)`, then each entry's left subtree and key, then the
/// right subtree, then `Close`; `Leaf` for the empty tree.
pub open spec fn fingerprint<K, V>(t: Tree<K, V>) -> Seq<Tok<K, V>>
    decreases t,
{
    match t {
        None => seq![Tok::Leaf],
        Some(n) => seq![Tok::Open(n.rank)] + run_fingerprint(n.items.0.entries@) + fingerprint(n.right) + seq![
            Tok::Close,
        ],
    }
}

/// The shape of a run of entries with their left subtrees.
pub open spec fn run_fingerprint<K, V>(es: Seq<Entry<K, V>>) -> Seq<Tok<K, V>>
    decreases es,
{
    if es.len() == 0 {
        Seq::empty()
    } else {
        fingerprint(es[0].left) + seq![Tok::Key(es[0].key, value_of(es[0].value))] + run_fingerprint(
            es.drop_first(),
        )
    }
}

/// The highest rank of the keys of `s`, or -1 if there are none.
pub open spec fn max_rank<K, V>(s: Seq<Item<K, V>>) -> int
    decreases s.len(),
{
    if s.len() == 0 {
        -1
    } else {
        let m = max_rank(s.drop_first());
        if s[0].rank >= m {
            s[0].rank as int
        } else {
            m
        }
    }
}

/// The index of the first key of rank `r` in `s`, or its length.
pub open spec fn first_rank<K, V>(s: Seq<Item<K, V>>, r: u32) -> int
    decreases s.len(),
{
    if s.len() == 0 {
        0
    } else if s[0].rank == r {
        0
    } else {
        1 + first_rank(s.drop_first(), r)
    }
}

/// Every key of `s` has a rank below `r`.
pub open spec fn all_below<K, V>(s: Seq<Item<K, V>>, r: int) -> bool {
    forall|i: int| 0 <= i < s.len() ==> (#[trigger] s[i]).rank < r
}

/// Definition 3 of the paper: the tree of a sorted sequence of keys is the
/// node of its keys of highest rank, each over the tree of the keys before
/// it, with the tree of the keys after the last of them on the right.
pub open spec fn construct<K, V>(s: Seq<Item<K, V>>) -> Seq<Tok<K, V>>
    decreases s.len(), 1int,
{
    if s.len() == 0 {
        seq![Tok::Leaf]
    } else {
        let r = max_rank(s) as u32;
        seq![Tok::Open(r)] + construct_pieces(s, r) + seq![Tok::Close]
    }
}

/// The part of [`construct`] between `Open` and `Close`: the pieces of `s`
/// around its keys of rank `r`.
pub open spec fn construct_pieces<K, V>(s: Seq<Item<K, V>>, r: u32) -> Seq<Tok<K, V>>
    decreases s.len(), 0int,
{
    let i = first_rank(s, r);
    if 0 <= i < s.len() {
        let tail = s.skip(i + 1);
        let rest = if 0 <= first_rank(tail, r) < tail.len() {
            construct_pieces(tail, r)
        } else {
            construct(tail)
        };
        construct(s.take(i)) + seq![Tok::Key(s[i].key, s[i].value)] + rest
    } else {
        Seq::empty()
    }
}


/// Parts with ranks below `r` make a whole with ranks below `r`.
pub proof fn lemma_all_below_append<K, V>(a: Seq<Item<K, V>>, b: Seq<Item<K, V>>, r: int)
    requires
        all_below(a, r),
        all_below(b, r),
    ensures
        all_below(a + b, r),
{
    assert forall|i: int| 0 <= i < (a + b).len() implies (#[trigger] (a + b)[i]).rank < r by {
        if i < a.len() {
            assert((a + b)[i] == a[i]);
        } else {
            assert((a + b)[i] == b[i - a.len()]);
        }
    }
}

/// The keys of a well-formed tree have ranks no higher than its root.
pub proof fn lemma_tree_ranks<K, V>(t: Tree<K, V>)
    requires
        tree_wf(t),
    ensures
        all_below(tree_items(t), top(t) + 1),
    decreases t,
{
    if let Some(n) = t {
        lemma_run_ranks(root_entries(t), n.rank);
        lemma_tree_ranks(root_right(t));
        lemma_all_below_append(run_items(root_entries(t), n.rank), tree_items(root_right(t)), top(t) + 1);
    }
}

/// The keys of a well-formed run of rank `r` have ranks no higher than `r`.
pub proof fn lemma_run_ranks<K, V>(es: Seq<Entry<K, V>>, r: u32)
    requires
        run_wf(es, r),
    ensures
        all_below(run_items(es, r), r + 1),
    decreases es,
{
    if es.len() > 0 {
        lemma_tree_ranks(es[0].left);
        lemma_run_ranks(es.drop_first(), r);
        lemma_all_below_append(tree_items(es[0].left), seq![item_of(es[0], r)], r + 1);
        lemma_all_below_append(tree_items(es[0].left) + seq![item_of(es[0], r)], run_items(es.drop_first(), r), r + 1);
    }
}

/// `first_rank` finds the first key of the rank, or none.
pub proof fn lemma_first_rank<K, V>(s: Seq<Item<K, V>>, r: u32)
    ensures
        0 <= first_rank(s, r) <= s.len(),
        first_rank(s, r) < s.len() ==> s[first_rank(s, r)].rank == r,
        forall|j: int| 0 <= j < first_rank(s, r) ==> (#[trigger] s[j]).rank != r,
    decreases s.len(),
{
    if s.len() > 0 && s[0].rank != r {
        lemma_first_rank(s.drop_first(), r);
        assert forall|j: int| 0 <= j < first_rank(s, r) implies (#[trigger] s[j]).rank != r by {
            if j > 0 {
                assert(s[j] == s.drop_first()[j - 1]);
            }
        }
    }
}

/// Keys of lower rank in front do not change where the first key of the rank
/// is found, past them.
pub proof fn lemma_first_rank_append<K, V>(a: Seq<Item<K, V>>, b: Seq<Item<K, V>>, r: u32)
    requires
        all_below(a, r as int),
    ensures
        first_rank(a + b, r) == a.len() + first_rank(b, r),
    decreases a.len(),
{
    if a.len() == 0 {
        assert(a + b =~= b);
    } else {
        assert((a + b)[0] == a[0]);
        assert((a + b).drop_first() =~= a.drop_first() + b);
        assert(all_below(a.drop_first(), r as int)) by {
            assert forall|i: int| 0 <= i < a.drop_first().len() implies (#[trigger] a.drop_first()[i]).rank < r by {
                assert(a.drop_first()[i] == a[i + 1]);
            }
        }
        lemma_first_rank_append(a.drop_first(), b, r);
    }
}

/// The highest rank of keys no higher than `r`, one of which has rank `r`, is
/// `r`.
pub proof fn lemma_max_rank<K, V>(s: Seq<Item<K, V>>, r: u32, k: int)
    requires
        all_below(s, r + 1),
        0 <= k < s.len(),
        s[k].rank == r,
    ensures
        max_rank(s) == r,
    decreases s.len(),
{
    lemma_max_rank_bound(s.drop_first(), r);
    assert(all_below(s.drop_first(), r + 1)) by {
        assert forall|i: int| 0 <= i < s.drop_first().len() implies (#[trigger] s.drop_first()[i]).rank < r + 1 by {
            assert(s.drop_first()[i] == s[i + 1]);
        }
    }
    if k > 0 {
        assert(s.drop_first()[k - 1] == s[k]);
        lemma_max_rank(s.drop_first(), r, k - 1);
    }
}

/// The highest rank of keys below `r + 1` is at most `r`.
pub proof fn lemma_max_rank_bound<K, V>(s: Seq<Item<K, V>>, r: u32)
    requires
        all_below(s, r + 1),
    ensures
        max_rank(s) <= r,
    decreases s.len(),
{
    if s.len() > 0 {
        assert(all_below(s.drop_first(), r + 1)) by {
            assert forall|i: int| 0 <= i < s.drop_first().len() implies (#[trigger] s.drop_first()[i]).rank < r + 1 by {
                assert(s.drop_first()[i] == s[i + 1]);
            }
        }
        lemma_max_rank_bound(s.drop_first(), r);
    }
}


/// Definition 3 of the paper holds of every well-formed G-tree: its shape is
/// the one constructed from its keys, values and ranks alone.
pub proof fn lemma_definition_3<K, V>(t: Tree<K, V>)
    requires
        tree_wf(t),
    ensures
        fingerprint(t) == construct(tree_items(t)),
    decreases tree_len(t), 1int,
{
    if let Some(n) = t {
        let es = root_entries(t);
        let r = n.rank;
        let right = root_right(t);
        lemma_root_len(t);
        lemma_tree_ranks(t);
        let e = es[0];
        lemma_run_cons(e, es.drop_first(), r);
        assert(seq![e] + es.drop_first() =~= es);
        let s = tree_items(t);
        let l = tree_items(e.left);
        assert(s =~= l + seq![item_of(e, r)] + (run_items(es.drop_first(), r) + tree_items(right)));
        assert(s[l.len() as int] == item_of(e, r));
        lemma_max_rank(s, r, l.len() as int);
        lemma_pieces(es, r, right);
    } else {
        assert(tree_items(t) =~= Seq::<Item<K, V>>::empty());
    }
}

/// The pieces of the keys of a node are the shapes of its subtrees and its
/// keys, in order.
#[verifier::spinoff_prover]
proof fn lemma_pieces<K, V>(es: Seq<Entry<K, V>>, r: u32, right: Tree<K, V>)
    requires
        es.len() > 0,
        run_wf(es, r),
        tree_wf(right),
        below(right, r),
    ensures
        construct_pieces(run_items(es, r) + tree_items(right), r) == run_fingerprint(es) + fingerprint(right),
    decreases run_items(es, r).len() + tree_len(right), 0int,
{
    let e = es[0];
    let l = tree_items(e.left);
    let x = item_of(e, r);
    let rest_es = es.drop_first();
    let big_r = run_items(rest_es, r) + tree_items(right);
    let s = run_items(es, r) + tree_items(right);
    assert(s =~= l + (seq![x] + big_r));
    lemma_tree_ranks(e.left);
    assert(all_below(l, r as int));
    lemma_first_rank_append(l, seq![x] + big_r, r);
    assert((seq![x] + big_r)[0] == x);
    assert(first_rank(s, r) == l.len());
    assert(s.take(l.len() as int) =~= l);
    assert(s[l.len() as int] == x);
    assert(s.skip(l.len() as int + 1) =~= big_r);
    lemma_definition_3(e.left);
    if rest_es.len() > 0 {
        let e2 = rest_es[0];
        lemma_run_cons(e2, rest_es.drop_first(), r);
        assert(seq![e2] + rest_es.drop_first() =~= rest_es);
        lemma_tree_ranks(e2.left);
        let l2 = tree_items(e2.left);
        assert(big_r =~= l2 + (seq![item_of(e2, r)] + (run_items(rest_es.drop_first(), r) + tree_items(right))));
        lemma_first_rank_append(l2, seq![item_of(e2, r)] + (run_items(rest_es.drop_first(), r) + tree_items(right)), r);
        assert((seq![item_of(e2, r)] + (run_items(rest_es.drop_first(), r) + tree_items(right)))[0] == item_of(e2, r));
        lemma_pieces(rest_es, r, right);
    } else {
        assert(big_r =~= tree_items(right));
        lemma_tree_ranks(right);
        lemma_first_rank(big_r, r);
        lemma_definition_3(right);
    }
    assert(construct_pieces(s, r) =~= run_fingerprint(es) + fingerprint(right));
}

/// History independence: two well-formed G-trees that hold the same keys,
/// values and ranks, in the same order, have the same shape.
pub proof fn lemma_history_independent<K, V>(t1: Tree<K, V>, t2: Tree<K, V>)
    requires
        tree_wf(t1),
        tree_wf(t2),
        tree_items(t1) == tree_items(t2),
    ensures
        fingerprint(t1) == fingerprint(t2),
{
    lemma_definition_3(t1);
    lemma_definition_3(t2);
}


/// Unzipping and zipping back: a well-formed tree holding the keys of the
/// parts of an unzip, with the hit (if any) between them, has the shape of
/// the tree that was unzipped. So `zip(zip(l, one), r)` with `one` the single
/// tree of the hit, and `zip(l, r)` when there is no hit, give the tree back.
pub proof fn lemma_unzip_zip<K, V>(t: Tree<K, V>, res: (Tree<K, V>, Option<Entry<K, V>>, Tree<K, V>), z: Tree<K, V>)
    requires
        tree_wf(t),
        unzipped(t, res),
        tree_wf(z),
        tree_items(z) == tree_items(res.0) + hit_part(tree_items(t), len_of(tree_items(res.0)), res.1) + tree_items(res.2),
    ensures
        fingerprint(z) == fingerprint(t),
{
    lemma_history_independent(z, t);
}

/// Zip is associative up to shape: joining three ordered trees in either
/// grouping gives trees of the same shape.
pub proof fn lemma_zip_associative<K, V>(a: Tree<K, V>, b: Tree<K, V>, c: Tree<K, V>, ab_c: Tree<K, V>, a_bc: Tree<K, V>)
    requires
        tree_wf(ab_c),
        tree_wf(a_bc),
        tree_items(ab_c) == (tree_items(a) + tree_items(b)) + tree_items(c),
        tree_items(a_bc) == tree_items(a) + (tree_items(b) + tree_items(c)),
    ensures
        fingerprint(ab_c) == fingerprint(a_bc),
{
    assert((tree_items(a) + tree_items(b)) + tree_items(c) =~= tree_items(a) + (tree_items(b) + tree_items(c)));
    lemma_history_independent(ab_c, a_bc);
}

/// The height of a tree, in nodes.
pub open spec fn height<K, V>(t: Tree<K, V>) -> nat
    decreases t,
{
    match t {
        None => 0,
        Some(n) => 1 + max_height(n.items.0.entries@, height(n.right)),
    }
}

/// The largest of `h` and the heights of the left subtrees of a run.
pub open spec fn max_height<K, V>(es: Seq<Entry<K, V>>, h: nat) -> nat
    decreases es,
{
    if es.len() == 0 {
        h
    } else {
        let m = max_height(es.drop_first(), h);
        let l = height(es[0].left);
        if l >= m {
            l
        } else {
            m
        }
    }
}

/// Every rank in the tree is at least one (as hashed and random ranks are).
pub open spec fn ranks_positive<K, V>(t: Tree<K, V>) -> bool {
    forall|i: int| 0 <= i < tree_items(t).len() ==> (#[trigger] tree_items(t)[i]).rank >= 1
}

/// The height of a well-formed tree whose ranks are all at least one is at
/// most the rank of its root: ranks strictly decrease down every path.
pub proof fn lemma_height_at_most_rank<K, V>(t: Tree<K, V>)
    requires
        tree_wf(t),
        ranks_positive(t),
    ensures
        height(t) <= top(t) || t is None,
    decreases tree_len(t), 1int,
{
    if t is Some {
        let es = root_entries(t);
        let r = t->0.rank;
        let right = root_right(t);
        lemma_root_len(t);
        lemma_run_last(es, r);
        assert(tree_items(t)[0].rank >= 1);
        assert(tree_items(t) =~= run_items(es, r) + tree_items(right));
        lemma_positive_parts(run_items(es, r), tree_items(right));
        if right is Some {
            lemma_root_len(right);
            lemma_height_at_most_rank(right);
        }
        lemma_height_run(es, r, height(right));
    }
}

/// Parts of a sequence of positive ranks have positive ranks.
proof fn lemma_positive_parts<K, V>(a: Seq<Item<K, V>>, b: Seq<Item<K, V>>)
    requires
        forall|i: int| 0 <= i < (a + b).len() ==> (#[trigger] (a + b)[i]).rank >= 1,
    ensures
        forall|i: int| 0 <= i < a.len() ==> (#[trigger] a[i]).rank >= 1,
        forall|i: int| 0 <= i < b.len() ==> (#[trigger] b[i]).rank >= 1,
{
    assert forall|i: int| 0 <= i < a.len() implies (#[trigger] a[i]).rank >= 1 by {
        assert((a + b)[i] == a[i]);
    }
    assert forall|i: int| 0 <= i < b.len() implies (#[trigger] b[i]).rank >= 1 by {
        assert((a + b)[a.len() + i] == b[i]);
    }
}

/// The left subtrees of a run of rank `r` are less than `r` high.
proof fn lemma_height_run<K, V>(es: Seq<Entry<K, V>>, r: u32, h: nat)
    requires
        run_wf(es, r),
        h < r,
        forall|i: int| 0 <= i < run_items(es, r).len() ==> (#[trigger] run_items(es, r)[i]).rank >= 1,
    ensures
        max_height(es, h) < r,
    decreases run_items(es, r).len(), 0int,
{
    if es.len() > 0 {
        lemma_run_cons(es[0], es.drop_first(), r);
        assert(seq![es[0]] + es.drop_first() =~= es);
        let l = tree_items(es[0].left);
        assert(run_items(es, r) =~= l + (seq![item_of(es[0], r)] + run_items(es.drop_first(), r)));
        lemma_positive_parts(l, seq![item_of(es[0], r)] + run_items(es.drop_first(), r));
        lemma_positive_parts(seq![item_of(es[0], r)], run_items(es.drop_first(), r));
        lemma_height_run(es.drop_first(), r, h);
        assert(below(es[0].left, r) && tree_wf(es[0].left));
        if es[0].left is Some {
            assert(ranks_positive(es[0].left));
            lemma_root_len(es[0].left);
            lemma_height_at_most_rank(es[0].left);
        }
        assert(height(es[0].left) < r);
    }
}

}
