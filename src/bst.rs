use vstd::prelude::*;
use core::cmp::Ordering;
use crate::interface::{all_below, is_lower_bound, strictly_increasing};
use crate::order::TotalOrder;

verus! {

/// A binary search tree node holding a key and per-node data `M`
/// (a priority in a treap, nothing in a scapegoat tree).
pub struct Node<T, M> {
    pub x: T,
    pub meta: M,
    pub left: Option<Box<Node<T, M>>>,
    pub right: Option<Box<Node<T, M>>>,
}

/// The keys held in a subtree.
pub open spec fn keys<T: TotalOrder, M>(t: Option<Box<Node<T, M>>>) -> Set<int>
    decreases t,
{
    match t {
        None => Set::empty(),
        Some(n) => keys(n.left).union(keys(n.right)).insert(n.x.rank()),
    }
}

/// The keys of a subtree in in-order.
pub open spec fn inorder<T: TotalOrder, M>(t: Option<Box<Node<T, M>>>) -> Seq<int>
    decreases t,
{
    match t {
        None => Seq::empty(),
        Some(n) => inorder(n.left) + seq![n.x.rank()] + inorder(n.right),
    }
}

/// Number of nodes of a subtree.
pub open spec fn node_count<T, M>(t: Option<Box<Node<T, M>>>) -> nat
    decreases t,
{
    match t {
        None => 0,
        Some(n) => node_count(n.left) + node_count(n.right) + 1,
    }
}

/// Keys to the left of a node are smaller, keys to the right larger, at every node.
pub open spec fn is_bst<T: TotalOrder, M>(t: Option<Box<Node<T, M>>>) -> bool
    decreases t,
{
    match t {
        None => true,
        Some(n) => {
            &&& is_bst(n.left)
            &&& is_bst(n.right)
            &&& forall|k: int| #[trigger] keys(n.left).contains(k) ==> k < n.x.rank()
            &&& forall|k: int| #[trigger] keys(n.right).contains(k) ==> k > n.x.rank()
        },
    }
}

/// The in-order traversal of a search tree is strictly increasing, holds its keys,
/// and has one entry per node.
pub proof fn lemma_bst_facts<T: TotalOrder, M>(t: Option<Box<Node<T, M>>>)
    requires
        is_bst(t),
    ensures
        keys(t).finite(),
        keys(t).len() == node_count(t),
        inorder(t).len() == node_count(t),
        inorder(t).to_set() == keys(t),
        strictly_increasing(inorder(t)),
    decreases t,
{
    match t {
        None => {
            assert(inorder(t).to_set() =~= keys(t));
        },
        Some(n) => {
            lemma_bst_facts(n.left);
            lemma_bst_facts(n.right);
            let l = keys(n.left);
            let r = keys(n.right);
            let k = n.x.rank();
            assert(l.disjoint(r));
            vstd::set_lib::lemma_set_disjoint_lens(l, r);
            assert(!l.union(r).contains(k));
            let sl = inorder(n.left);
            let sr = inorder(n.right);
            let s = inorder(t);
            assert(s == sl + seq![k] + sr);
            assert forall|v: int| s.contains(v) <==> keys(t).contains(v) by {
                if s.contains(v) {
                    let i = choose|i: int| 0 <= i < s.len() && s[i] == v;
                    if i < sl.len() {
                        assert(sl.contains(v));
                    } else if i > sl.len() {
                        assert(sr[i - sl.len() - 1] == v);
                        assert(sr.contains(v));
                    }
                }
                if keys(t).contains(v) {
                    if l.contains(v) {
                        assert(sl.to_set().contains(v));
                        let i = choose|i: int| 0 <= i < sl.len() && sl[i] == v;
                        assert(s[i] == v);
                    } else if r.contains(v) {
                        assert(sr.to_set().contains(v));
                        let i = choose|i: int| 0 <= i < sr.len() && sr[i] == v;
                        assert(s[sl.len() + 1 + i] == v);
                    } else {
                        assert(s[sl.len() as int] == v);
                    }
                }
            }
            assert(s.to_set() =~= keys(t));
            assert forall|i: int, j: int| 0 <= i < j < s.len() implies s[i] < s[j] by {
                if i < sl.len() {
                    assert(sl.to_set().contains(sl[i]));
                }
                if j > sl.len() {
                    assert(sr.to_set().contains(sr[j - sl.len() - 1]));
                }
                if i > sl.len() {
                    assert(s[i] == sr[i - sl.len() - 1]);
                    assert(s[j] == sr[j - sl.len() - 1]);
                }
            }
        },
    }
}

/// Lower-bound search: the node with the smallest key at least that of `x`.
pub fn find_in<'a, T: TotalOrder, M>(t: &'a Option<Box<Node<T, M>>>, x: &T) -> (r: Option<&'a T>)
    requires
        is_bst(*t),
    ensures
        r.is_some() ==> is_lower_bound(keys(*t), x.rank(), r.unwrap().rank()),
        r.is_none() ==> all_below(keys(*t), x.rank()),
    decreases *t,
{
    match t {
        None => {
            assert(keys(*t) =~= Set::<int>::empty());
            None
        },
        Some(n) => {
            assert(keys(*t) == keys(n.left).union(keys(n.right)).insert(n.x.rank()));
            match x.compare(&n.x) {
                Ordering::Less => {
                    let found = find_in(&n.left, x);
                    match found {
                        Some(y) => Some(y),
                        None => Some(&n.x),
                    }
                },
                Ordering::Greater => find_in(&n.right, x),
                Ordering::Equal => Some(&n.x),
            }
        },
    }
}

/// Rotation to the right: the left child takes the place of the root, and the
/// old root becomes its right child. The in-order sequence is unchanged.
pub fn rotate_right<T: TotalOrder, M>(t: &mut Option<Box<Node<T, M>>>)
    requires
        old(t).is_some(),
        old(t).unwrap().left.is_some(),
        is_bst(*old(t)),
    ensures
        final(t).is_some(),
        is_bst(*final(t)),
        keys(*final(t)) == keys(*old(t)),
        node_count(*final(t)) == node_count(*old(t)),
        final(t).unwrap().x.rank() == old(t).unwrap().left.unwrap().x.rank(),
        final(t).unwrap().meta == old(t).unwrap().left.unwrap().meta,
        final(t).unwrap().left == old(t).unwrap().left.unwrap().left,
        final(t).unwrap().right.is_some(),
        final(t).unwrap().right.unwrap().meta == old(t).unwrap().meta,
        final(t).unwrap().right.unwrap().x == old(t).unwrap().x,
        final(t).unwrap().right.unwrap().left == old(t).unwrap().left.unwrap().right,
        final(t).unwrap().right.unwrap().right == old(t).unwrap().right,
{
    let mut u = t.take().unwrap();
    let mut w = u.left.take().unwrap();
    let ghost a = w.left;
    let ghost b = w.right;
    let ghost c = u.right;
    proof {
        lemma_rotation_parts(a, b, c, w.x.rank(), u.x.rank(), *old(t), Some(w));
    }
    u.left = w.right.take();
    w.right = Some(u);
    proof {
        assert(is_bst(w.right));
        assert(keys(w.right) == keys(b).union(keys(c)).insert(u.x.rank()));
        assert(node_count(w.right) == node_count(b) + node_count(c) + 1);
    }
    *t = Some(w);
    proof {
        assert(keys(*t) == keys(a).union(keys(w.right)).insert(w.x.rank()));
        assert(keys(*t) =~= keys(*old(t)));
    }
}

/// Rotation to the left: the right child takes the place of the root, and the
/// old root becomes its left child. The in-order sequence is unchanged.
pub fn rotate_left<T: TotalOrder, M>(t: &mut Option<Box<Node<T, M>>>)
    requires
        old(t).is_some(),
        old(t).unwrap().right.is_some(),
        is_bst(*old(t)),
    ensures
        final(t).is_some(),
        is_bst(*final(t)),
        keys(*final(t)) == keys(*old(t)),
        node_count(*final(t)) == node_count(*old(t)),
        final(t).unwrap().x.rank() == old(t).unwrap().right.unwrap().x.rank(),
        final(t).unwrap().meta == old(t).unwrap().right.unwrap().meta,
        final(t).unwrap().right == old(t).unwrap().right.unwrap().right,
        final(t).unwrap().left.is_some(),
        final(t).unwrap().left.unwrap().meta == old(t).unwrap().meta,
        final(t).unwrap().left.unwrap().x == old(t).unwrap().x,
        final(t).unwrap().left.unwrap().right == old(t).unwrap().right.unwrap().left,
        final(t).unwrap().left.unwrap().left == old(t).unwrap().left,
{
    let mut u = t.take().unwrap();
    let mut w = u.right.take().unwrap();
    let ghost a = u.left;
    let ghost b = w.left;
    let ghost c = w.right;
    proof {
        lemma_rotation_parts_mirror(a, b, c, u.x.rank(), w.x.rank(), *old(t), Some(w));
    }
    u.right = w.left.take();
    w.left = Some(u);
    proof {
        assert(is_bst(w.left));
        assert(keys(w.left) == keys(a).union(keys(b)).insert(u.x.rank()));
        assert(node_count(w.left) == node_count(a) + node_count(b) + 1);
    }
    *t = Some(w);
    proof {
        assert(keys(*t) == keys(w.left).union(keys(c)).insert(w.x.rank()));
        assert(keys(*t) =~= keys(*old(t)));
    }
}

/// What a right rotation needs of a tree `((a, wk, b), uk, c)`.
proof fn lemma_rotation_parts<T: TotalOrder, M>(
    a: Option<Box<Node<T, M>>>,
    b: Option<Box<Node<T, M>>>,
    c: Option<Box<Node<T, M>>>,
    wk: int,
    uk: int,
    whole: Option<Box<Node<T, M>>>,
    lower: Option<Box<Node<T, M>>>,
)
    requires
        is_bst(whole),
        whole.is_some(),
        whole.unwrap().left == lower,
        whole.unwrap().right == c,
        whole.unwrap().x.rank() == uk,
        lower.is_some(),
        lower.unwrap().left == a,
        lower.unwrap().right == b,
        lower.unwrap().x.rank() == wk,
    ensures
        is_bst(a),
        is_bst(b),
        is_bst(c),
        wk < uk,
        forall|k: int| #[trigger] keys(a).contains(k) ==> k < wk,
        forall|k: int| #[trigger] keys(b).contains(k) ==> wk < k && k < uk,
        forall|k: int| #[trigger] keys(c).contains(k) ==> k > uk,
        keys(whole) == keys(a).union(keys(b)).insert(wk).union(keys(c)).insert(uk),
        node_count(whole) == node_count(a) + node_count(b) + node_count(c) + 2,
{
    let wn = whole.unwrap();
    let ln = lower.unwrap();
    assert(whole == Some(wn));
    assert(lower == Some(ln));
    assert(is_bst(lower));
    assert(is_bst(a) && is_bst(b));
    assert(keys(lower) == keys(a).union(keys(b)).insert(wk));
    assert(node_count(lower) == node_count(a) + node_count(b) + 1);
    assert(node_count(whole) == node_count(lower) + node_count(c) + 1);
    assert(keys(whole) == keys(lower).union(keys(c)).insert(uk));
    assert(keys(lower).contains(wk));
    assert forall|k: int| #[trigger] keys(b).contains(k) implies wk < k && k < uk by {
        assert(keys(lower).contains(k));
    }
}

/// What a left rotation needs of a tree `(a, uk, (b, wk, c))`.
proof fn lemma_rotation_parts_mirror<T: TotalOrder, M>(
    a: Option<Box<Node<T, M>>>,
    b: Option<Box<Node<T, M>>>,
    c: Option<Box<Node<T, M>>>,
    uk: int,
    wk: int,
    whole: Option<Box<Node<T, M>>>,
    upper: Option<Box<Node<T, M>>>,
)
    requires
        is_bst(whole),
        whole.is_some(),
        whole.unwrap().left == a,
        whole.unwrap().right == upper,
        whole.unwrap().x.rank() == uk,
        upper.is_some(),
        upper.unwrap().left == b,
        upper.unwrap().right == c,
        upper.unwrap().x.rank() == wk,
    ensures
        is_bst(a),
        is_bst(b),
        is_bst(c),
        uk < wk,
        forall|k: int| #[trigger] keys(a).contains(k) ==> k < uk,
        forall|k: int| #[trigger] keys(b).contains(k) ==> uk < k && k < wk,
        forall|k: int| #[trigger] keys(c).contains(k) ==> k > wk,
        keys(whole) == keys(a).union(keys(b).union(keys(c)).insert(wk)).insert(uk),
        node_count(whole) == node_count(a) + node_count(b) + node_count(c) + 2,
{
    let wn = whole.unwrap();
    let un = upper.unwrap();
    assert(whole == Some(wn));
    assert(upper == Some(un));
    assert(is_bst(upper));
    assert(is_bst(b) && is_bst(c));
    assert(keys(upper) == keys(b).union(keys(c)).insert(wk));
    assert(node_count(upper) == node_count(b) + node_count(c) + 1);
    assert(node_count(whole) == node_count(a) + node_count(upper) + 1);
    assert(keys(whole) == keys(a).union(keys(upper)).insert(uk));
    assert(keys(upper).contains(wk));
    assert forall|k: int| #[trigger] keys(b).contains(k) implies uk < k && k < wk by {
        assert(keys(upper).contains(k));
    }
    assert forall|k: int| #[trigger] keys(c).contains(k) implies k > wk by {
        assert(keys(upper).contains(k));
    }
}

} // verus!
