use vstd::prelude::*;
use core::cmp::Ordering;
use rand::rngs::SmallRng;
use crate::bst::{find_in, inorder, is_bst, keys, lemma_bst_facts, rotate_left, rotate_right, Node};
use crate::interface::SSet;
use crate::order::TotalOrder;
use crate::random::{next_u64, seeded_rng};

verus! {

/// Seed of the priority generator of `Treap::new`.
pub const DEFAULT_SEED: u64 = 122333;

/// A randomized balanced search tree: a search tree on keys that is a min-heap
/// on priorities drawn at random when a key is inserted.
pub struct Treap<T> {
    n: usize,
    root: Option<Box<Node<T, u64>>>,
    rng: SmallRng,
}

/// Every priority below `t` is at least `p`.
pub open spec fn prio_ge<T>(t: Option<Box<Node<T, u64>>>, p: u64) -> bool
    decreases t,
{
    match t {
        None => true,
        Some(n) => n.meta >= p && prio_ge(n.left, p) && prio_ge(n.right, p),
    }
}

/// Every priority below `t`, but that of the node with key `k`, is at least `p`.
pub open spec fn prio_ge_except<T: TotalOrder>(t: Option<Box<Node<T, u64>>>, k: int, p: u64) -> bool
    decreases t,
{
    match t {
        None => true,
        Some(n) => (n.x.rank() == k || n.meta >= p) && prio_ge_except(n.left, k, p)
            && prio_ge_except(n.right, k, p),
    }
}

/// Min-heap order on priorities: no node has a smaller priority than its parent.
pub open spec fn is_heap<T>(t: Option<Box<Node<T, u64>>>) -> bool
    decreases t,
{
    match t {
        None => true,
        Some(n) => {
            &&& is_heap(n.left)
            &&& is_heap(n.right)
            &&& prio_ge(n.left, n.meta)
            &&& prio_ge(n.right, n.meta)
        },
    }
}

proof fn lemma_prio_mono<T>(t: Option<Box<Node<T, u64>>>, p: u64, q: u64)
    requires
        prio_ge(t, p),
        q <= p,
    ensures
        prio_ge(t, q),
    decreases t,
{
    match t {
        None => {},
        Some(n) => {
            lemma_prio_mono(n.left, p, q);
            lemma_prio_mono(n.right, p, q);
        },
    }
}

/// A heap whose root priority is at least `p` has all priorities at least `p`.
proof fn lemma_heap_bound<T>(t: Option<Box<Node<T, u64>>>, p: u64)
    requires
        is_heap(t),
        t.is_some(),
        t.unwrap().meta >= p,
    ensures
        prio_ge(t, p),
{
    let n = t.unwrap();
    lemma_prio_mono(n.left, n.meta, p);
    lemma_prio_mono(n.right, n.meta, p);
}

proof fn lemma_except_of_all<T: TotalOrder>(t: Option<Box<Node<T, u64>>>, k: int, p: u64)
    requires
        prio_ge(t, p),
    ensures
        prio_ge_except(t, k, p),
    decreases t,
{
    match t {
        None => {},
        Some(n) => {
            lemma_except_of_all(n.left, k, p);
            lemma_except_of_all(n.right, k, p);
        },
    }
}

proof fn lemma_all_of_except<T: TotalOrder>(t: Option<Box<Node<T, u64>>>, k: int, p: u64)
    requires
        prio_ge_except(t, k, p),
        !keys(t).contains(k),
    ensures
        prio_ge(t, p),
    decreases t,
{
    match t {
        None => {},
        Some(n) => {
            assert(keys(t) == keys(n.left).union(keys(n.right)).insert(n.x.rank()));
            lemma_all_of_except(n.left, k, p);
            lemma_all_of_except(n.right, k, p);
        },
    }
}

/// Inserts `x` below `t` unless its key is present, then rotates the new node
/// up while its priority is smaller than its parent's.
fn insert_into<T: TotalOrder>(t: &mut Option<Box<Node<T, u64>>>, x: T, rng: &mut SmallRng) -> (r:
    bool)
    requires
        is_bst(*old(t)),
        is_heap(*old(t)),
    ensures
        is_bst(*final(t)),
        is_heap(*final(t)),
        r == !keys(*old(t)).contains(x.rank()),
        keys(*final(t)) == keys(*old(t)).insert(x.rank()),
        !r ==> *final(t) == *old(t),
        final(t).is_some(),
        forall|p: u64|
            prio_ge(*old(t), p) ==> prio_ge(final(t).unwrap().left, p) && prio_ge(
                final(t).unwrap().right,
                p,
            ),
    decreases *old(t),
{
    let ghost k = x.rank();
    match t.take() {
        None => {
            let priority = next_u64(rng);
            let leaf = Node { x, meta: priority, left: None, right: None };
            *t = Some(Box::new(leaf));
            proof {
                assert(keys(*t) == keys(leaf.left).union(keys(leaf.right)).insert(
                    leaf.x.rank(),
                ));
                assert(keys(*t) =~= keys(*old(t)).insert(k));
            }
            true
        },
        Some(mut node) => {
            let ghost pu = node.meta;
            let ghost c = node.left;
            let ghost rt = node.right;
            proof {
                assert(keys(*old(t)) == keys(node.left).union(keys(node.right)).insert(
                    node.x.rank(),
                ));
            }
            match x.compare(&node.x) {
                Ordering::Less => {
                    let added = insert_into(&mut node.left, x, rng);
                    let lift = match &node.left {
                        Some(child) => child.meta < node.meta,
                        None => false,
                    };
                    let ghost c2 = node.left;
                    *t = Some(node);
                    proof {
                        assert(keys(*t) == keys(node.left).union(keys(node.right)).insert(
                            node.x.rank(),
                        ));
                        assert(keys(*t) =~= keys(*old(t)).insert(k));
                        assert(prio_ge(c, pu) && prio_ge(rt, pu) && is_heap(c) && is_heap(rt));
                    }
                    if added && lift {
                        let ghost before = *t;
                        rotate_right(t);
                        proof {
                            let w = c2.unwrap();
                            assert(is_heap(c2));
                            assert(is_heap(w.left) && is_heap(w.right) && prio_ge(w.left, w.meta)
                                && prio_ge(w.right, w.meta));
                            assert(prio_ge(w.right, pu));
                            lemma_prio_mono(rt, pu, w.meta);
                            let top = t.unwrap();
                            assert(top.left == w.left);
                            let low = top.right.unwrap();
                            assert(low.left == w.right);
                            assert(low.right == rt);
                            assert(low.meta == pu);
                            assert(is_heap(top.right));
                            assert(prio_ge(top.right, w.meta));
                            assert(is_heap(*t));
                            assert forall|p: u64| prio_ge(*old(t), p) implies prio_ge(t.unwrap().left, p)
                                && prio_ge(t.unwrap().right, p) by {
                                assert(prio_ge(c, p));
                                assert(prio_ge(w.left, p) && prio_ge(w.right, p));
                            }
                        }
                    } else {
                        proof {
                            if added {
                                let w = c2.unwrap();
                                assert(prio_ge(w.left, pu) && prio_ge(w.right, pu));
                                assert(prio_ge(c2, pu));
                            }
                            assert(is_heap(*t));
                            assert forall|p: u64| prio_ge(*old(t), p) implies prio_ge(t.unwrap().left, p)
                                && prio_ge(t.unwrap().right, p) by {
                                assert(prio_ge(c, p));
                                if added {
                                    let w = c2.unwrap();
                                    assert(prio_ge(w.left, p) && prio_ge(w.right, p));
                                }
                            }
                        }
                    }
                    added
                },
                Ordering::Greater => {
                    let added = insert_into(&mut node.right, x, rng);
                    let lift = match &node.right {
                        Some(child) => child.meta < node.meta,
                        None => false,
                    };
                    let ghost c2 = node.right;
                    *t = Some(node);
                    proof {
                        assert(keys(*t) == keys(node.left).union(keys(node.right)).insert(
                            node.x.rank(),
                        ));
                        assert(keys(*t) =~= keys(*old(t)).insert(k));
                        assert(prio_ge(c, pu) && prio_ge(rt, pu) && is_heap(c) && is_heap(rt));
                    }
                    if added && lift {
                        rotate_left(t);
                        proof {
                            let w = c2.unwrap();
                            assert(is_heap(c2));
                            assert(is_heap(w.left) && is_heap(w.right) && prio_ge(w.left, w.meta)
                                && prio_ge(w.right, w.meta));
                            assert(prio_ge(w.left, pu));
                            lemma_prio_mono(c, pu, w.meta);
                            let top = t.unwrap();
                            assert(top.right == w.right);
                            let low = top.left.unwrap();
                            assert(low.right == w.left);
                            assert(low.left == c);
                            assert(low.meta == pu);
                            assert(is_heap(top.left));
                            assert(prio_ge(top.left, w.meta));
                            assert(is_heap(*t));
                            assert forall|p: u64| prio_ge(*old(t), p) implies prio_ge(t.unwrap().left, p)
                                && prio_ge(t.unwrap().right, p) by {
                                assert(prio_ge(rt, p));
                                assert(prio_ge(w.left, p) && prio_ge(w.right, p));
                            }
                        }
                    } else {
                        proof {
                            if added {
                                let w = c2.unwrap();
                                assert(prio_ge(w.left, pu) && prio_ge(w.right, pu));
                                assert(prio_ge(c2, pu));
                            }
                            assert(is_heap(*t));
                            assert forall|p: u64| prio_ge(*old(t), p) implies prio_ge(t.unwrap().left, p)
                                && prio_ge(t.unwrap().right, p) by {
                                assert(prio_ge(rt, p));
                                if added {
                                    let w = c2.unwrap();
                                    assert(prio_ge(w.left, p) && prio_ge(w.right, p));
                                }
                            }
                        }
                    }
                    added
                },
                Ordering::Equal => {
                    *t = Some(node);
                    proof {
                        assert(keys(*t) =~= keys(*old(t)).insert(k));
                    }
                    false
                },
            }
        },
    }
}

/// Deletes the node with the key of `x` below `t`, if any: the node is rotated
/// down, towards the child of smaller priority, until it is a leaf.
fn remove_from<T: TotalOrder>(t: &mut Option<Box<Node<T, u64>>>, x: &T) -> (r: bool)
    requires
        is_bst(*old(t)),
        is_heap(*old(t)),
    ensures
        is_bst(*final(t)),
        is_heap(*final(t)),
        r == keys(*old(t)).contains(x.rank()),
        keys(*final(t)) == keys(*old(t)).remove(x.rank()),
        forall|p: u64| prio_ge_except(*old(t), x.rank(), p) ==> prio_ge(*final(t), p),
    decreases crate::bst::node_count(*old(t)),
{
    let ghost k = x.rank();
    match t.take() {
        None => {
            proof {
                assert(keys(*old(t)) =~= Set::<int>::empty());
                assert(keys(*t) =~= keys(*old(t)).remove(x.rank()));
            }
            false
        },
        Some(mut node) => {
            let ghost pu = node.meta;
            let ghost lt = node.left;
            let ghost rt = node.right;
            let ghost ux = node.x.rank();
            proof {
                assert(keys(*old(t)) == keys(node.left).union(keys(node.right)).insert(
                    node.x.rank(),
                ));
                assert(prio_ge(lt, pu) && prio_ge(rt, pu) && is_heap(lt) && is_heap(rt));
                assert forall|p: u64| prio_ge_except(*old(t), k, p) implies (ux == k || pu >= p)
                    && prio_ge_except(lt, k, p) && prio_ge_except(rt, k, p) by {
                }
            }
            match x.compare(&node.x) {
                Ordering::Less => {
                    let removed = remove_from(&mut node.left, x);
                    *t = Some(node);
                    proof {
                        assert(keys(*t) == keys(node.left).union(keys(node.right)).insert(
                            node.x.rank(),
                        ));
                        assert(keys(*t) =~= keys(*old(t)).remove(x.rank()));
                        lemma_except_of_all(lt, k, pu);
                        assert forall|p: u64| prio_ge_except(*old(t), k, p) implies prio_ge(*t, p) by {
                            assert(!keys(rt).contains(k));
                            lemma_all_of_except(rt, k, p);
                            assert(ux != k);
                            assert(pu >= p);
                            assert(prio_ge(node.left, p));
                        }
                    }
                    removed
                },
                Ordering::Greater => {
                    let removed = remove_from(&mut node.right, x);
                    *t = Some(node);
                    proof {
                        assert(keys(*t) == keys(node.left).union(keys(node.right)).insert(
                            node.x.rank(),
                        ));
                        assert(keys(*t) =~= keys(*old(t)).remove(x.rank()));
                        lemma_except_of_all(rt, k, pu);
                        assert forall|p: u64| prio_ge_except(*old(t), k, p) implies prio_ge(*t, p) by {
                            assert(!keys(lt).contains(k));
                            lemma_all_of_except(lt, k, p);
                            assert(ux != k);
                            assert(pu >= p);
                            assert(prio_ge(node.right, p));
                        }
                    }
                    removed
                },
                Ordering::Equal => {
                    if node.left.is_none() && node.right.is_none() {
                        proof {
                            assert(keys(node.left) =~= Set::<int>::empty());
                            assert(keys(node.right) =~= Set::<int>::empty());
                            assert(keys(*t) =~= keys(*old(t)).remove(x.rank()));
                        }
                        return true;
                    }
                    let down_left = match (&node.left, &node.right) {
                        (None, _) => true,
                        (_, None) => false,
                        (Some(l), Some(r)) => l.meta >= r.meta,
                    };
                    let ghost nr = node.right;
                    let ghost nl = node.left;
                    proof {
                        match nr {
                            Some(rc) => {
                                assert(keys(nr) == keys(rc.left).union(keys(rc.right)).insert(rc.x.rank()));
                            },
                            None => {},
                        }
                        match nl {
                            Some(lc) => {
                                assert(keys(nl) == keys(lc.left).union(keys(lc.right)).insert(lc.x.rank()));
                            },
                            None => {},
                        }
                    }
                    *t = Some(node);
                    let ghost before = *t;
                    if down_left {
                        rotate_left(t);
                        let mut top = t.take().unwrap();
                        let ghost rc = nr.unwrap();
                        proof {
                            lemma_bst_facts(before);
                            lemma_bst_facts(Some(top));
                            assert(keys(Some(top)) == keys(top.left).union(keys(top.right)).insert(
                                top.x.rank(),
                            ));
                            assert(crate::bst::node_count(top.left)
                                < crate::bst::node_count(*old(t)));
                            let bn = before.unwrap();
                            assert(before == Some(bn));
                            assert(bn.right == nr);
                            assert(keys(nr).contains(rc.x.rank()));
                            assert(rc.x.rank() > bn.x.rank());
                            assert(top.x.rank() > x.rank());
                            assert(is_bst(Some(top)));
                            assert(!keys(top.right).contains(x.rank()));
                            // the node to delete, with its left subtree and the
                            // former left subtree of the child above it
                            let low = top.left.unwrap();
                            assert(low.left == lt);
                            assert(low.right == rc.left);
                            assert(low.meta == pu);
                            assert(low.x == bn.x);
                            assert(top.right == rc.right);
                            assert(top.meta == rc.meta);
                            assert(is_heap(nr));
                            assert(prio_ge(rc.left, pu));
                            assert(is_heap(top.left));
                        }
                        let ghost low0 = top.left;
                        let removed = remove_from(&mut top.left, x);
                        *t = Some(top);
                        proof {
                            assert(keys(*t) == keys(top.left).union(keys(top.right)).insert(
                                top.x.rank(),
                            ));
                            assert(keys(*t) =~= keys(*old(t)).remove(x.rank()));
                            let low = low0;
                            assert(low.unwrap().x.rank() == k);
                            if lt.is_some() {
                                lemma_heap_bound(lt, rc.meta);
                            }
                            lemma_except_of_all(lt, k, rc.meta);
                            lemma_except_of_all(rc.left, k, rc.meta);
                            assert(prio_ge_except(low, k, rc.meta));
                            assert(prio_ge(top.left, rc.meta));
                            assert(is_heap(*t));
                            assert(nr == Some(rc));
                            assert(rc.x.rank() != k);
                            assert forall|p: u64| prio_ge_except(*old(t), k, p) implies prio_ge(*t, p) by {
                                assert(prio_ge_except(nr, k, p));
                                assert(rc.meta >= p);
                                assert(prio_ge_except(rc.left, k, p));
                                assert(prio_ge_except(low, k, p));
                                assert(prio_ge(top.left, p));
                                assert(!keys(rc.right).contains(k));
                                lemma_all_of_except(rc.right, k, p);
                            }
                        }
                        removed
                    } else {
                        rotate_right(t);
                        let mut top = t.take().unwrap();
                        let ghost lc = nl.unwrap();
                        proof {
                            lemma_bst_facts(before);
                            lemma_bst_facts(Some(top));
                            assert(keys(Some(top)) == keys(top.left).union(keys(top.right)).insert(
                                top.x.rank(),
                            ));
                            assert(crate::bst::node_count(top.right)
                                < crate::bst::node_count(*old(t)));
                            let bn = before.unwrap();
                            assert(before == Some(bn));
                            assert(bn.left == nl);
                            assert(keys(nl).contains(lc.x.rank()));
                            assert(lc.x.rank() < bn.x.rank());
                            assert(top.x.rank() < x.rank());
                            assert(is_bst(Some(top)));
                            assert(!keys(top.left).contains(x.rank()));
                            let low = top.right.unwrap();
                            assert(low.right == rt);
                            assert(low.left == lc.right);
                            assert(low.meta == pu);
                            assert(low.x == bn.x);
                            assert(top.left == lc.left);
                            assert(top.meta == lc.meta);
                            assert(is_heap(nl));
                            assert(prio_ge(lc.right, pu));
                            assert(is_heap(top.right));
                        }
                        let ghost low0 = top.right;
                        let removed = remove_from(&mut top.right, x);
                        *t = Some(top);
                        proof {
                            assert(keys(*t) == keys(top.left).union(keys(top.right)).insert(
                                top.x.rank(),
                            ));
                            assert(keys(*t) =~= keys(*old(t)).remove(x.rank()));
                            let low = low0;
                            assert(low.unwrap().x.rank() == k);
                            if rt.is_some() {
                                lemma_heap_bound(rt, lc.meta);
                            }
                            lemma_except_of_all(rt, k, lc.meta);
                            lemma_except_of_all(lc.right, k, lc.meta);
                            assert(prio_ge_except(low, k, lc.meta));
                            assert(prio_ge(top.right, lc.meta));
                            assert(is_heap(*t));
                            assert(nl == Some(lc));
                            assert(lc.x.rank() != k);
                            assert forall|p: u64| prio_ge_except(*old(t), k, p) implies prio_ge(*t, p) by {
                                assert(prio_ge_except(nl, k, p));
                                assert(lc.meta >= p);
                                assert(prio_ge_except(lc.right, k, p));
                                assert(prio_ge_except(low, k, p));
                                assert(prio_ge(top.right, p));
                                assert(!keys(lc.left).contains(k));
                                lemma_all_of_except(lc.left, k, p);
                            }
                        }
                        removed
                    }
                },
            }
        },
    }
}

impl<T: TotalOrder> Treap<T> {
    /// An empty treap whose priorities come from a generator with a fixed seed.
    pub fn new() -> (r: Self)
        ensures
            r.wf(),
            r.contents() == Set::<int>::empty(),
    {
        Self::with_seed(DEFAULT_SEED)
    }

    /// An empty treap whose priorities come from a generator seeded with `seed`.
    pub fn with_seed(seed: u64) -> (r: Self)
        ensures
            r.wf(),
            r.contents() == Set::<int>::empty(),
    {
        let r = Treap { n: 0, root: None, rng: seeded_rng(seed) };
        proof {
            lemma_bst_facts(r.root);
        }
        r
    }
}

impl<T: TotalOrder> SSet<T> for Treap<T> {
    closed spec fn wf(&self) -> bool {
        &&& is_bst(self.root)
        &&& is_heap(self.root)
        &&& self.n == keys(self.root).len()
    }

    closed spec fn contents(&self) -> Set<int> {
        keys(self.root)
    }

    closed spec fn traversal(&self) -> Seq<int> {
        inorder(self.root)
    }

    open spec fn key(x: &T) -> int {
        x.rank()
    }

    proof fn lemma_traversal_sorted(&self) {
        lemma_bst_facts(self.root);
    }

    fn size(&self) -> (r: usize) {
        self.n
    }

    fn add(&mut self, x: T) -> (r: bool) {
        proof {
            lemma_bst_facts(self.root);
        }
        let added = insert_into(&mut self.root, x, &mut self.rng);
        if added {
            self.n = self.n + 1;
        }
        proof {
            lemma_bst_facts(self.root);
        }
        added
    }

    fn remove(&mut self, x: &T) -> (r: bool) {
        proof {
            lemma_bst_facts(self.root);
        }
        let removed = remove_from(&mut self.root, x);
        if removed {
            self.n = self.n - 1;
        }
        proof {
            lemma_bst_facts(self.root);
        }
        removed
    }

    fn find(&self, x: &T) -> (r: Option<&T>) {
        find_in(&self.root, x)
    }
}

} // verus!
