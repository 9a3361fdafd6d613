//! The classic binary zip tree (Tarjan, Levy and Timmel, 2021), kept as the
//! reference that [`crate::tree`] generalises: a G-tree with k = 2 is this
//! tree with every run of equal-rank right children folded into one node.

use std::cmp::Ordering;
use std::sync::Arc;
use vstd::prelude::*;

use crate::tree::{Item, Tok, all_below, first_rank, max_rank, all_are, clone_of, clones_exact, hits, int_of, lead, len_of, monotone, spliced};

verus! {

/// A node: key, value, rank, and the subtrees of smaller and greater keys.
pub struct Node<K, V> {
    pub key: K,
    pub value: V,
    pub rank: u32,
    pub left: Tree<K, V>,
    pub right: Tree<K, V>,
    pub size: usize,
}

/// A possibly empty zip tree.
pub type Tree<K, V> = Option<Arc<Node<K, V>>>;

// ---------------------------------------------------------------------------
// The model
// ---------------------------------------------------------------------------

/// The item a node stands for.
pub open spec fn node_item<K, V>(n: Node<K, V>) -> Item<K, V> {
    Item { key: n.key, value: n.value, rank: n.rank }
}

/// The keys of a tree, in order, with their values and ranks.
pub open spec fn items<K, V>(t: Tree<K, V>) -> Seq<Item<K, V>>
    decreases t,
{
    match t {
        None => Seq::empty(),
        Some(n) => items(n.left) + seq![node_item(*n)] + items(n.right),
    }
}

/// The size a tree records at its root.
pub open spec fn size_field<K, V>(t: Tree<K, V>) -> nat {
    match t {
        None => 0,
        Some(n) => n.size as nat,
    }
}

/// The rank at the root of a tree, or -1 for the empty tree.
pub open spec fn top<K, V>(t: Tree<K, V>) -> int {
    match t {
        None => -1,
        Some(n) => n.rank as int,
    }
}

/// The zip-tree invariant: a left child has a lower rank than its parent, a
/// right child no higher a rank, and sizes count the keys.
pub open spec fn wf<K, V>(t: Tree<K, V>) -> bool
    decreases t,
{
    match t {
        None => true,
        Some(n) => {
            &&& wf(n.left)
            &&& wf(n.right)
            &&& top(n.left) < n.rank
            &&& top(n.right) <= n.rank
            &&& n.size == items(n.left).len() + 1 + items(n.right).len()
        },
    }
}

/// A well-formed tree records its own size.
pub proof fn lemma_size<K, V>(t: Tree<K, V>)
    requires
        wf(t),
    ensures
        size_field(t) == items(t).len(),
{
}

/// The left and right subtrees of the root.
pub open spec fn left_of<K, V>(t: Tree<K, V>) -> Tree<K, V> {
    match t {
        Some(n) => n.left,
        None => None,
    }
}

pub open spec fn right_of<K, V>(t: Tree<K, V>) -> Tree<K, V> {
    match t {
        Some(n) => n.right,
        None => None,
    }
}

// ---------------------------------------------------------------------------
// Building
// ---------------------------------------------------------------------------

/// Number of keys in a tree.
pub fn size<K, V>(t: &Tree<K, V>) -> (r: usize)
    ensures
        r == size_field(*t),
{
    match t {
        None => 0,
        Some(n) => n.size,
    }
}

/// Another handle on the same tree.
fn share<K, V>(t: &Tree<K, V>) -> (r: Tree<K, V>)
    ensures
        r == *t,
{
    match t {
        None => None,
        Some(n) => Some(n.clone()),
    }
}

/// Build a node, computing its size.
pub fn node<K, V>(key: K, value: V, rank: u32, left: Tree<K, V>, right: Tree<K, V>) -> (r: Tree<K, V>)
    requires
        size_field(left) + size_field(right) + 1 <= usize::MAX,
    ensures
        r matches Some(n) && n.key == key && n.value == value && n.rank == rank && n.left == left
            && n.right == right && n.size == size_field(left) + size_field(right) + 1,
{
    let size = size(&left) + size(&right) + 1;
    Some(Arc::new(Node { key, value, rank, left, right, size }))
}

/// A node with new subtrees and the same key, value and rank.
fn with<K: Clone, V: Clone>(n: &Node<K, V>, left: Tree<K, V>, right: Tree<K, V>) -> (r: Tree<K, V>)
    requires
        clones_exact::<K, V>(),
        size_field(left) + size_field(right) + 1 <= usize::MAX,
    ensures
        r matches Some(m) && m.key == n.key && m.value == n.value && m.rank == n.rank && m.left == left
            && m.right == right && m.size == size_field(left) + size_field(right) + 1,
{
    node(clone_of(&n.key), clone_of(&n.value), n.rank, left, right)
}

/// A tree holding a single key.
pub fn single<K, V>(key: K, value: V, rank: u32) -> (r: Tree<K, V>)
    ensures
        wf(r),
        items(r) == seq![Item { key, value, rank }],
        top(r) == rank,
{
    let r = node(key, value, rank, None, None);
    assert(items::<K, V>(None) =~= Seq::empty());
    assert(left_of(r) == None::<Arc<Node<K, V>>> && right_of(r) == None::<Arc<Node<K, V>>>);
    assert(items(r) == items(left_of(r)) + seq![root_item(r)] + items(right_of(r)));
    assert(items(r) =~= seq![Item { key, value, rank }]);
    assert(wf(left_of(r)) && wf(right_of(r)));
    r
}

// ---------------------------------------------------------------------------
// Join and split
// ---------------------------------------------------------------------------

/// Join two trees; every key of `l` must precede every key of `r`.
pub fn zip<K: Clone, V: Clone>(l: &Tree<K, V>, r: &Tree<K, V>) -> (res: Tree<K, V>)
    requires
        wf(*l),
        wf(*r),
        items(*l).len() + items(*r).len() <= usize::MAX,
        clones_exact::<K, V>(),
    ensures
        wf(res),
        items(res) == items(*l) + items(*r),
        top(res) == if top(*l) >= top(*r) { top(*l) } else { top(*r) },
        *l is None ==> res == *r,
        *r is None ==> res == *l,
    decreases items(*l).len() + items(*r).len(),
{
    let ln = match l {
        None => {
            assert(items(*l) + items(*r) =~= items(*r));
            return share(r);
        },
        Some(ln) => ln,
    };
    let rn = match r {
        None => {
            assert(items(*l) + items(*r) =~= items(*l));
            return share(l);
        },
        Some(rn) => rn,
    };
    proof {
        lemma_size(left_of(*l));
        lemma_size(right_of(*l));
        lemma_size(left_of(*r));
        lemma_size(right_of(*r));
    }
    // Ties go left, so equal ranks chain down a right spine.
    if ln.rank >= rn.rank {
        let z = zip(&ln.right, r);
        proof {
            lemma_size(z);
        }
        let res = with(ln, share(&ln.left), z);
        assert(items(res) =~= items(*l) + items(*r));
        res
    } else {
        let z = zip(l, &rn.left);
        proof {
            lemma_size(z);
        }
        let res = with(rn, z, share(&rn.right));
        assert(items(res) =~= items(*l) + items(*r));
        res
    }
}

/// Whether `at` may be called on every node.
pub open spec fn total<K, V, F: Fn(&Node<K, V>) -> Ordering>(at: F) -> bool {
    forall|n: &Node<K, V>| #[trigger] call_requires(at, (n,))
}

/// Whether `at` answers for every node what `f` says of its key and value.
pub open spec fn keyed_by<K, V, F: Fn(&Node<K, V>) -> Ordering>(at: F, f: spec_fn(K, V) -> Ordering) -> bool {
    forall|n: &Node<K, V>, o: Ordering| #[trigger] call_ensures(at, (n,), o) ==> o == f(n.key, n.value)
}

/// `res` is `t` unzipped: its parts are well formed, of no higher rank, and
/// hold the keys of `t` in order, the hit being the key between them.
pub open spec fn unzipped<K, V>(t: Tree<K, V>, res: (Tree<K, V>, Option<Arc<Node<K, V>>>, Tree<K, V>)) -> bool {
    let (l, hit, r) = res;
    &&& wf(l)
    &&& wf(r)
    &&& top(l) <= top(t)
    &&& top(r) <= top(t)
    &&& items(t) == items(l) + hit_items(hit) + items(r)
}

/// The item of a hit, as a sequence of zero or one item.
pub open spec fn hit_items<K, V>(hit: Option<Arc<Node<K, V>>>) -> Seq<Item<K, V>> {
    match hit {
        Some(h) => seq![node_item(*h)],
        None => Seq::empty(),
    }
}

/// The item at the root of a tree.
pub open spec fn root_item<K, V>(t: Tree<K, V>) -> Item<K, V> {
    node_item(*t->0)
}

/// Under a position `f`, the left part of `res` is before it, the right part
/// after it, and the hit at it.
pub open spec fn unzipped_at<K, V>(res: (Tree<K, V>, Option<Arc<Node<K, V>>>, Tree<K, V>), f: spec_fn(K, V) -> Ordering) -> bool {
    &&& all_are(items(res.0), f, Ordering::Less)
    &&& all_are(items(res.2), f, Ordering::Greater)
    &&& res.1 matches Some(h) ==> f(h.key, h.value) == Ordering::Equal
}

/// Split a tree into the keys before a position, the node at it (if any), and
/// the keys after it. `at` compares a node to the position, as in the G-tree.
pub fn unzip<K: Clone, V: Clone>(t: &Tree<K, V>, at: &impl Fn(&Node<K, V>) -> Ordering) -> (res: (
    Tree<K, V>,
    Option<Arc<Node<K, V>>>,
    Tree<K, V>,
))
    requires
        wf(*t),
        total(*at),
        clones_exact::<K, V>(),
    ensures
        unzipped(*t, res),
        forall|f: spec_fn(K, V) -> Ordering| keyed_by(*at, f) && monotone(items(*t), f) ==> unzipped_at(res, f),
    decreases items(*t).len(),
{
    let n = match t {
        None => {
            let res = (None, None, None);
            assert(items(*t) =~= items(res.0) + items(res.2));
            return res;
        },
        Some(n) => n,
    };
    let ghost a = items(left_of(*t));
    let ghost x = root_item(*t);
    let ghost b = items(right_of(*t));
    proof {
        lemma_size(left_of(*t));
        lemma_size(right_of(*t));
        assert(items(*t) == a + seq![x] + b);
    }
    match at(n) {
        Ordering::Equal => {
            let res = (share(&n.left), Some(n.clone()), share(&n.right));
            proof {
                assert(hit_items(res.1) == seq![x]);
                assert forall|f: spec_fn(K, V) -> Ordering| keyed_by(*at, f) && monotone(items(*t), f) implies unzipped_at(res, f) by {
                    crate::tree::lemma_monotone_pivot(a, x, b, f);
                }
            }
            res
        },
        // n is after the position: n and its right subtree go right.
        Ordering::Greater => {
            let (l, hit, r) = unzip(&n.left, at);
            proof {
                lemma_size(r);
            }
            let res = (l, hit, with(n, r, share(&n.right)));
            proof {
                assert(items(res.2) =~= items(r) + seq![x] + b);
                assert(items(*t) =~= items(l) + hit_items(res.1) + items(res.2));
                assert forall|f: spec_fn(K, V) -> Ordering| keyed_by(*at, f) && monotone(items(*t), f) implies unzipped_at(res, f) by {
                    crate::tree::lemma_monotone_pivot(a, x, b, f);
                    assert(a + (seq![x] + b) =~= items(*t));
                    crate::tree::lemma_monotone_parts(a, seq![x] + b, f);
                    assert(unzipped_at((l, hit, r), f));
                    assert(all_are(seq![x], f, Ordering::Greater));
                    crate::tree::lemma_all_are_append(items(r), seq![x], f, Ordering::Greater);
                    crate::tree::lemma_all_are_append(items(r) + seq![x], b, f, Ordering::Greater);
                }
            }
            res
        },
        Ordering::Less => {
            let (l, hit, r) = unzip(&n.right, at);
            proof {
                lemma_size(l);
            }
            let res = (with(n, share(&n.left), l), hit, r);
            proof {
                assert(items(res.0) =~= a + seq![x] + items(l));
                assert(items(*t) =~= items(res.0) + hit_items(res.1) + items(r));
                assert forall|f: spec_fn(K, V) -> Ordering| keyed_by(*at, f) && monotone(items(*t), f) implies unzipped_at(res, f) by {
                    crate::tree::lemma_monotone_pivot(a, x, b, f);
                    assert((a + seq![x]) + b =~= items(*t));
                    crate::tree::lemma_monotone_parts(a + seq![x], b, f);
                    assert(unzipped_at((l, hit, r), f));
                    assert(all_are(seq![x], f, Ordering::Less));
                    crate::tree::lemma_all_are_append(a, seq![x], f, Ordering::Less);
                    crate::tree::lemma_all_are_append(a + seq![x], items(l), f, Ordering::Less);
                }
            }
            res
        },
    }
}


// ---------------------------------------------------------------------------
// Insertion, deletion, search
// ---------------------------------------------------------------------------

/// Insert a single-node tree, replacing any node at the same position.
pub fn insert<K: Clone, V: Clone>(t: &Tree<K, V>, at: &impl Fn(&Node<K, V>) -> Ordering, one: &Tree<K, V>) -> (res: Tree<
    K,
    V,
>)
    requires
        wf(*t),
        wf(*one),
        items(*t).len() + items(*one).len() <= usize::MAX,
        total(*at),
        clones_exact::<K, V>(),
    ensures
        wf(res),
        forall|f: spec_fn(K, V) -> Ordering|
            keyed_by(*at, f) && monotone(items(*t), f) ==> items(res) == spliced(items(*t), f, items(*one)),
{
    let (l, hit, r) = unzip(t, at);
    assert(items(*t).len() == items(l).len() + hit_items(hit).len() + items(r).len());
    let lo = zip(&l, one);
    let res = zip(&lo, &r);
    proof {
        assert forall|f: spec_fn(K, V) -> Ordering| keyed_by(*at, f) && monotone(items(*t), f) implies items(res)
            == spliced(items(*t), f, items(*one)) by {
            assert(unzipped_at((l, hit, r), f));
            crate::tree::lemma_split_parts(items(*t), items(l), hit_items(hit), items(r), f);
        }
    }
    res
}

/// Remove the node at a position, if any.
pub fn remove<K: Clone, V: Clone>(t: &Tree<K, V>, at: &impl Fn(&Node<K, V>) -> Ordering) -> (res: Tree<K, V>)
    requires
        wf(*t),
        total(*at),
        clones_exact::<K, V>(),
    ensures
        wf(res),
        forall|f: spec_fn(K, V) -> Ordering|
            keyed_by(*at, f) && monotone(items(*t), f) ==> items(res) == spliced(items(*t), f, Seq::empty()),
{
    let (l, hit, r) = unzip(t, at);
    assert(items(*t).len() == items(l).len() + hit_items(hit).len() + items(r).len());
    let res = zip(&l, &r);
    proof {
        assert forall|f: spec_fn(K, V) -> Ordering| keyed_by(*at, f) && monotone(items(*t), f) implies items(res)
            == spliced(items(*t), f, Seq::empty()) by {
            assert(unzipped_at((l, hit, r), f));
            crate::tree::lemma_split_parts(items(*t), items(l), hit_items(hit), items(r), f);
            assert(items(res) =~= spliced(items(*t), f, Seq::empty()));
        }
    }
    res
}

/// The first node at or after a position, without allocating.
pub fn find<'a, K, V>(t: &'a Tree<K, V>, at: &impl Fn(&Node<K, V>) -> Ordering) -> (r: Option<&'a Node<K, V>>)
    requires
        wf(*t),
        total(*at),
    ensures
        forall|f: spec_fn(K, V) -> Ordering|
            keyed_by(*at, f) && monotone(items(*t), f) ==> {
                let s = items(*t);
                &&& r is None <==> lead(s, f) == s.len()
                &&& r matches Some(n) ==> s[lead(s, f)] == node_item(*n)
            },
{
    let ghost s = items(*t);
    let mut cur = t;
    let mut best: Option<&Node<K, V>> = None;
    let ghost mut p: Seq<Item<K, V>> = Seq::empty();
    let ghost mut q: Seq<Item<K, V>> = Seq::empty();
    assert(s =~= p + items(*cur) + q);
    while cur.is_some()
        invariant
            wf(*cur),
            total(*at),
            s == items(*t),
            s == p + items(*cur) + q,
            best is None ==> q.len() == 0,
            best matches Some(n) ==> q.len() > 0 && q[0] == node_item(*n),
            forall|f: spec_fn(K, V) -> Ordering|
                keyed_by(*at, f) && monotone(s, f) ==> {
                    &&& all_are(p, f, Ordering::Less)
                    &&& (best matches Some(n) ==> f(n.key, n.value) != Ordering::Less)
                },
        decreases items(*cur).len(),
    {
        if let Some(n) = cur {
            let ghost a = items(left_of(*cur));
            let ghost x = root_item(*cur);
            let ghost b = items(right_of(*cur));
            proof {
                assert(s =~= (p + a) + seq![x] + (b + q));
            }
            match at(n) {
                Ordering::Equal => {
                    proof {
                        assert forall|f: spec_fn(K, V) -> Ordering| keyed_by(*at, f) && monotone(s, f) implies {
                            &&& lead(s, f) < s.len()
                            &&& s[lead(s, f)] == x
                        } by {
                            crate::tree::lemma_monotone_pivot(p + a, x, b + q, f);
                            assert(s =~= (p + a) + (seq![x] + (b + q)));
                            assert((seq![x] + (b + q))[0] == x);
                            crate::tree::lemma_lead(p + a, seq![x] + (b + q), f);
                        }
                    }
                    return Some(&**n);
                },
                Ordering::Less => {
                    proof {
                        assert forall|f: spec_fn(K, V) -> Ordering| keyed_by(*at, f) && monotone(s, f) implies all_are(
                            p + a + seq![x],
                            f,
                            Ordering::Less,
                        ) by {
                            crate::tree::lemma_monotone_pivot(p + a, x, b + q, f);
                            assert(s =~= p + ((a + seq![x]) + (b + q)));
                            crate::tree::lemma_monotone_parts(p, (a + seq![x]) + (b + q), f);
                            crate::tree::lemma_less_prefix(a + seq![x], b + q, f);
                            crate::tree::lemma_all_are_append(p, a + seq![x], f, Ordering::Less);
                            assert(p + (a + seq![x]) =~= p + a + seq![x]);
                        }
                        p = p + a + seq![x];
                        assert(s =~= p + b + q);
                    }
                    cur = &n.right;
                },
                Ordering::Greater => {
                    proof {
                        q = seq![x] + b + q;
                        assert(s =~= p + a + q);
                    }
                    best = Some(&**n);
                    cur = &n.left;
                },
            }
        }
    }
    proof {
        assert(items(*cur) =~= Seq::<Item<K, V>>::empty());
        assert forall|f: spec_fn(K, V) -> Ordering| keyed_by(*at, f) && monotone(s, f) implies {
            &&& best is None <==> lead(s, f) == s.len()
            &&& best matches Some(n) ==> s[lead(s, f)] == node_item(*n)
        } by {
            assert(s =~= p + q);
            crate::tree::lemma_lead(p, q, f);
        }
    }
    best
}

/// Append the nodes of `t` to `out`, in key order.
fn push_nodes<'a, K, V>(t: &'a Tree<K, V>, out: &mut Vec<&'a Node<K, V>>)
    requires
        wf(*t),
    ensures
        final(out)@.len() == old(out)@.len() + items(*t).len(),
        forall|i: int| 0 <= i < old(out)@.len() ==> final(out)@[i] == old(out)@[i],
        forall|i: int| 0 <= i < items(*t).len() ==> node_item(*(#[trigger] final(out)@[old(out)@.len() + i])) == items(*t)[i],
    decreases items(*t).len(),
{
    let ghost start = out@;
    if let Some(n) = t {
        let ghost a = items(left_of(*t));
        let ghost b = items(right_of(*t));
        proof {
            assert(items(*t) == a + seq![root_item(*t)] + b);
        }
        push_nodes(&n.left, out);
        let ghost mid = out@;
        out.push(&**n);
        let ghost mid2 = out@;
        push_nodes(&n.right, out);
        proof {
            assert forall|i: int| 0 <= i < items(*t).len() implies node_item(*(#[trigger] out@[start.len() + i])) == items(*t)[i] by {
                if i < a.len() {
                    assert(out@[start.len() + i] == mid[start.len() + i]);
                } else if i == a.len() {
                    assert(out@[start.len() + i] == mid2[start.len() + i]);
                } else {
                    assert(out@[start.len() + i] == out@[mid2.len() + (i - a.len() - 1)]);
                }
            }
        }
    }
}

/// The nodes of a tree, in key order.
pub fn nodes<'a, K, V>(t: &'a Tree<K, V>) -> (r: Vec<&'a Node<K, V>>)
    requires
        wf(*t),
    ensures
        r@.len() == items(*t).len(),
        forall|i: int| 0 <= i < r@.len() ==> node_item(*(#[trigger] r@[i])) == items(*t)[i],
{
    let mut out: Vec<&'a Node<K, V>> = Vec::new();
    push_nodes(t, &mut out);
    proof {
        assert forall|i: int| 0 <= i < out@.len() implies node_item(*(#[trigger] out@[i])) == items(*t)[i] by {
            assert(out@[0 + i] == out@[i]);
        }
    }
    out
}


// ---------------------------------------------------------------------------
// Shape and history independence
// ---------------------------------------------------------------------------

/// The shape of a tree, with its ranks, keys and values, as a sequence of
/// tokens: `Open(rank)`, the left subtree, the key, the right subtree,
/// `Close`; `Leaf` for the empty tree.
pub open spec fn fingerprint<K, V>(t: Tree<K, V>) -> Seq<Tok<K, V>>
    decreases t,
{
    match t {
        None => seq![Tok::Leaf],
        Some(n) => seq![Tok::Open(n.rank)] + fingerprint(n.left) + seq![Tok::Key(n.key, n.value)] + fingerprint(
            n.right,
        ) + seq![Tok::Close],
    }
}

/// The zip tree of a sorted sequence of keys: the first key of highest rank
/// at the root, over the trees of the keys before and after it.
pub open spec fn construct<K, V>(s: Seq<Item<K, V>>) -> Seq<Tok<K, V>>
    decreases s.len(),
{
    if s.len() == 0 {
        seq![Tok::Leaf]
    } else {
        let r = max_rank(s) as u32;
        let i = first_rank(s, r);
        if 0 <= i < s.len() {
            seq![Tok::Open(r)] + construct(s.take(i)) + seq![Tok::Key(s[i].key, s[i].value)] + construct(
                s.skip(i + 1),
            ) + seq![Tok::Close]
        } else {
            Seq::empty()
        }
    }
}

/// The keys of a well-formed tree have ranks no higher than its root.
pub proof fn lemma_ranks<K, V>(t: Tree<K, V>)
    requires
        wf(t),
    ensures
        all_below(items(t), top(t) + 1),
    decreases t,
{
    if t is Some {
        lemma_ranks(left_of(t));
        lemma_ranks(right_of(t));
        crate::tree::lemma_all_below_append(items(left_of(t)), seq![root_item(t)], top(t) + 1);
        crate::tree::lemma_all_below_append(items(left_of(t)) + seq![root_item(t)], items(right_of(t)), top(t) + 1);
    }
}

/// A well-formed zip tree is the one constructed from its keys, values and
/// ranks alone.
pub proof fn lemma_construct<K, V>(t: Tree<K, V>)
    requires
        wf(t),
    ensures
        fingerprint(t) == construct(items(t)),
    decreases t,
{
    if t is Some {
        let a = items(left_of(t));
        let x = root_item(t);
        let b = items(right_of(t));
        let s = items(t);
        let r = x.rank;
        assert(s == a + seq![x] + b);
        lemma_ranks(t);
        lemma_ranks(left_of(t));
        assert(s[len_of(a)] == x);
        crate::tree::lemma_max_rank(s, r, len_of(a));
        assert(all_below(a, r as int)) by {
            assert forall|i: int| 0 <= i < a.len() implies (#[trigger] a[i]).rank < r by {
            }
        }
        assert(s =~= a + (seq![x] + b));
        crate::tree::lemma_first_rank_append(a, seq![x] + b, r);
        assert((seq![x] + b)[0] == x);
        assert(s.take(len_of(a)) =~= a);
        assert(s.skip(len_of(a) + 1) =~= b);
        lemma_construct(left_of(t));
        lemma_construct(right_of(t));
    } else {
        assert(items(t) =~= Seq::<Item<K, V>>::empty());
    }
}

/// History independence: two well-formed zip trees that hold the same keys,
/// values and ranks, in the same order, have the same shape.
pub proof fn lemma_history_independent<K, V>(t1: Tree<K, V>, t2: Tree<K, V>)
    requires
        wf(t1),
        wf(t2),
        items(t1) == items(t2),
    ensures
        fingerprint(t1) == fingerprint(t2),
{
    lemma_construct(t1);
    lemma_construct(t2);
}


// ---------------------------------------------------------------------------
// G-trees fold zip trees
// ---------------------------------------------------------------------------

/// The zip tree a G-tree stands for: each node's run of keys unfolded into a
/// right spine of nodes of its rank, each over the unfolded left subtree of
/// its entry, the last over the unfolded right subtree.
pub open spec fn unfold<K, V>(t: crate::tree::Tree<K, V>) -> Tree<K, V>
    decreases t,
{
    match t {
        None => None,
        Some(n) => unfold_run(n.items.0.entries@, n.rank, unfold(n.right)),
    }
}

/// A run of entries of rank `rank` unfolded into a right spine over `right`.
pub open spec fn unfold_run<K, V>(es: Seq<crate::tree::Entry<K, V>>, rank: u32, right: Tree<K, V>) -> Tree<K, V>
    decreases es,
{
    if es.len() == 0 {
        right
    } else {
        let left = unfold(es[0].left);
        let rest = unfold_run(es.drop_first(), rank, right);
        Some(
            Arc::new(
                Node {
                    key: es[0].key,
                    value: crate::tree::value_of(es[0].value),
                    rank,
                    left,
                    right: rest,
                    size: (items(left).len() + 1 + items(rest).len()) as usize,
                },
            ),
        )
    }
}

/// Unfolding a well-formed G-tree gives a well-formed zip tree with the same
/// keys, values and ranks, and the same root rank.
pub proof fn lemma_unfold_wf<K, V>(t: crate::tree::Tree<K, V>)
    requires
        crate::tree::tree_wf(t),
    ensures
        wf(unfold(t)),
        items(unfold(t)) == crate::tree::tree_items(t),
        top(unfold(t)) == crate::tree::top(t),
    decreases crate::tree::tree_len(t), 1int,
{
    if t is Some {
        let es = crate::tree::root_entries(t);
        let r = t->0.rank;
        let right = crate::tree::root_right(t);
        crate::tree::lemma_root_len(t);
        lemma_unfold_wf(right);
        lemma_unfold_run(es, r, right);
    }
}

/// A run unfolded over the unfolded right subtree is a well-formed zip tree
/// of the run's keys followed by the subtree's, with the run's rank at its
/// root.
proof fn lemma_unfold_run<K, V>(es: Seq<crate::tree::Entry<K, V>>, r: u32, right: crate::tree::Tree<K, V>)
    requires
        es.len() > 0,
        crate::tree::run_wf(es, r),
        crate::tree::tree_wf(right),
        crate::tree::below(right, r),
        wf(unfold(right)),
        items(unfold(right)) == crate::tree::tree_items(right),
        top(unfold(right)) == crate::tree::top(right),
        crate::tree::run_items(es, r).len() + crate::tree::tree_len(right) <= usize::MAX,
    ensures
        wf(unfold_run(es, r, unfold(right))),
        items(unfold_run(es, r, unfold(right))) == crate::tree::run_items(es, r) + crate::tree::tree_items(right),
        top(unfold_run(es, r, unfold(right))) == r,
    decreases crate::tree::run_items(es, r).len() + crate::tree::tree_len(right), 0int,
{
    let e = es[0];
    let rest = es.drop_first();
    crate::tree::lemma_run_cons(e, rest, r);
    assert(seq![e] + rest =~= es);
    lemma_unfold_wf(e.left);
    let t = unfold_run(es, r, unfold(right));
    let l = unfold(e.left);
    let rr = unfold_run(rest, r, unfold(right));
    if rest.len() > 0 {
        lemma_unfold_run(rest, r, right);
    }
    assert(left_of(t) == l && right_of(t) == rr);
    assert(items(t) =~= items(l) + seq![root_item(t)] + items(rr));
    assert(root_item(t) == crate::tree::item_of(e, r));
    assert(items(t) =~= crate::tree::run_items(es, r) + crate::tree::tree_items(right));
}

/// The G-tree is the zip tree with every run of equal-rank right children
/// folded into one node: unfolding a well-formed G-tree gives the shape of
/// any well-formed zip tree of the same keys, values and ranks.
pub proof fn lemma_unfold_is_zip_tree<K, V>(g: crate::tree::Tree<K, V>, b: Tree<K, V>)
    requires
        crate::tree::tree_wf(g),
        wf(b),
        items(b) == crate::tree::tree_items(g),
    ensures
        fingerprint(unfold(g)) == fingerprint(b),
{
    lemma_unfold_wf(g);
    lemma_history_independent(unfold(g), b);
}


/// The same items give the same zip tree, whatever order they were inserted
/// and removed in: two well-formed zip trees whose items are sorted by key
/// and are the same set of (key, value, rank) items have the same shape.
pub proof fn lemma_same_items_same_shape<K: Ord, V>(t1: Tree<K, V>, t2: Tree<K, V>)
    requires
        crate::map::key_order::<K>(),
        wf(t1),
        wf(t2),
        crate::map::sorted(items(t1)),
        crate::map::sorted(items(t2)),
        forall|x: Item<K, V>| items(t1).contains(x) <==> items(t2).contains(x),
    ensures
        fingerprint(t1) == fingerprint(t2),
{
    crate::map::lemma_sorted_same_items(items(t1), items(t2));
    lemma_history_independent(t1, t2);
}

}
