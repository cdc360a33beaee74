use vstd::prelude::*;
use vstd::arithmetic::power::{pow, lemma_pow_adds, lemma_pow_increases, lemma_pow_positive};
use vstd::arithmetic::div_mod::lemma_fundamental_div_mod;
use core::cmp::Ordering;
use crate::bst::{find_in, inorder, is_bst, keys, lemma_bst_facts, node_count, Node};
use crate::interface::{strictly_increasing, SSet};
use crate::order::TotalOrder;

verus! {

/// An amortized weight-balanced search tree. Nodes carry no balance data: after
/// an insertion deeper than `log_{3/2}(q)` the subtree of a scapegoat ancestor is
/// rebuilt perfectly balanced, and the whole tree is rebuilt when the element
/// count drops below half of `q`.
pub struct ScapegoatTree<T> {
    n: usize,
    q: usize,
    root: Option<Box<Node<T, ()>>>,
}

/// `d > log_{3/2}(q)`, stated in integers: `(3/2)^d > q`.
pub open spec fn deeper_than_log32(d: nat, q: nat) -> bool {
    pow(3, d) > q * pow(2, d)
}

/// The ranks of a sequence of keys.
pub open spec fn ranks<T: TotalOrder>(s: Seq<T>) -> Seq<int> {
    s.map_values(|v: T| v.rank())
}

/// One more factor: `b^(e+1) = b * b^e`.
proof fn lemma_pow_succ(b: int, e: nat)
    ensures
        pow(b, e + 1) == b * pow(b, e),
{
    reveal_with_fuel(pow, 2);
}

/// `b^(e1+e2)` from known values of `b^e1` and `b^e2`.
proof fn lemma_pow_product(b: int, e1: nat, e2: nat, v1: int, v2: int)
    requires
        pow(b, e1) == v1,
        pow(b, e2) == v2,
    ensures
        pow(b, e1 + e2) == v1 * v2,
{
    lemma_pow_adds(b, e1, e2);
}

proof fn lemma_pow_values()
    ensures
        pow(3, 12) == 531441,
        pow(2, 19) == 524288,
        pow(3, 29) == 68630377364883int,
        pow(3, 80) == 147808829414345923316083210206383297601int,
        pow(2, 64) == 0x1_0000_0000_0000_0000int,
{
    reveal_with_fuel(pow, 6);
    assert(pow(3, 5) == 243);
    assert(pow(3, 4) == 81);
    assert(pow(3, 2) == 9);
    assert(pow(2, 4) == 16);
    assert(pow(2, 3) == 8);
    assert(pow(2, 2) == 4);
    lemma_pow_product(3, 5, 5, 243, 243);
    lemma_pow_product(3, 10, 10, 59049, 59049);
    lemma_pow_product(3, 20, 20, 3486784401, 3486784401);
    lemma_pow_product(3, 40, 40, 12157665459056928801, 12157665459056928801);
    lemma_pow_product(3, 5, 4, 243, 81);
    lemma_pow_product(3, 20, 9, 3486784401, 19683);
    lemma_pow_product(3, 10, 2, 59049, 9);
    lemma_pow_product(2, 4, 4, 16, 16);
    lemma_pow_product(2, 8, 8, 256, 256);
    lemma_pow_product(2, 16, 16, 65536, 65536);
    lemma_pow_product(2, 32, 32, 4294967296, 4294967296);
    lemma_pow_product(2, 16, 3, 65536, 8);
}

/// `3^(12k) >= 2^(19k)`, since `3^12 = 531441 >= 524288 = 2^19`.
proof fn lemma_pow_ratio(k: nat)
    ensures
        pow(3, 12 * k) >= pow(2, 19 * k),
    decreases k,
{
    if k == 0 {
        vstd::arithmetic::power::lemma_pow0(3);
        vstd::arithmetic::power::lemma_pow0(2);
    } else {
        lemma_pow_ratio((k - 1) as nat);
        lemma_pow_values();
        lemma_pow_adds(3, 12 * (k - 1) as nat, 12);
        lemma_pow_adds(2, 19 * (k - 1) as nat, 19);
        assert(12 * (k - 1) as nat + 12 == 12 * k);
        assert(19 * (k - 1) as nat + 19 == 19 * k);
        lemma_pow_positive(2, 19 * (k - 1) as nat);
    }
}

/// Beyond 110 levels `(3/2)^d` exceeds every 64-bit count.
proof fn lemma_deep_enough(d: nat)
    requires
        d >= 110,
    ensures
        pow(3, d) >= pow(2, d + 64),
    decreases d,
{
    if d == 110 {
        lemma_pow_ratio(9);
        lemma_pow_values();
        lemma_pow_adds(3, 108, 2);
        lemma_pow_adds(2, 171, 3);
        reveal_with_fuel(pow, 4);
        assert(pow(3, 2) == 9);
        assert(pow(2, 3) == 8);
        lemma_pow_positive(2, 171);
    } else {
        lemma_deep_enough((d - 1) as nat);
        lemma_pow_succ(3, (d - 1) as nat);
        lemma_pow_succ(2, (d - 1 + 64) as nat);
        lemma_pow_positive(2, (d - 1 + 64) as nat);
    }
}

/// Decides `d > log_{3/2}(q)` exactly, by long division of `q * 2^d` by a power of three.
pub fn deeper_than_log32_exec(d: usize, q: usize) -> (r: bool)
    ensures
        r == deeper_than_log32(d as nat, q as nat),
{
    if d >= 110 {
        proof {
            lemma_deep_enough(d as nat);
            lemma_pow_adds(2, d as nat, 64);
            lemma_pow_positive(2, d as nat);
            lemma_pow_values();
            assert((q as int) * pow(2, d as nat) < pow(2, 64) * pow(2, d as nat)) by (nonlinear_arith)
                requires
                    (q as int) < pow(2, 64),
                    pow(2, d as nat) > 0,
            ;
        }
        return true;
    }
    let e: usize = if d > 80 { d - 80 } else { 0 };
    let f: usize = d - e;
    proof {
        lemma_pow_values();
        vstd::arithmetic::power::lemma_pow0(3);
        vstd::arithmetic::power::lemma_pow0(2);
    }
    let mut a: u128 = 1;
    let mut k: usize = 0;
    while k < e
        invariant
            k <= e,
            e <= 29,
            a == pow(3, k as nat),
            pow(3, 29) == 68630377364883int,
        decreases e - k,
    {
        proof {
            lemma_pow_increases(3, (k + 1) as nat, 29);
            lemma_pow_succ(3, k as nat);
        }
        a = a * 3;
        k = k + 1;
    }
    let mut b: u128 = 1;
    let mut k: usize = 0;
    while k < f
        invariant
            k <= f,
            f <= 80,
            b == pow(3, k as nat),
            pow(3, 80) == 147808829414345923316083210206383297601int,
        decreases f - k,
    {
        proof {
            lemma_pow_increases(3, (k + 1) as nat, 80);
            lemma_pow_succ(3, k as nat);
        }
        b = b * 3;
        k = k + 1;
    }
    proof {
        lemma_pow_adds(3, e as nat, f as nat);
        lemma_pow_positive(3, e as nat);
        lemma_pow_increases(3, f as nat, 80);
        lemma_pow_increases(3, e as nat, 29);
        lemma_fundamental_div_mod(q as int, a as int);
        vstd::arithmetic::power::lemma_pow0(2);
    }
    let mut quo: u128 = (q as u128) / a;
    let mut rem: u128 = (q as u128) % a;
    let mut i: usize = 0;
    proof {
        assert((quo as int) * (a as int) + (rem as int) == (q as int) * pow(2, 0)) by (nonlinear_arith)
            requires
                quo as int == (q as int) / (a as int),
                rem as int == (q as int) % (a as int),
                q as int == (a as int) * ((q as int) / (a as int)) + (q as int) % (a as int),
                pow(2, 0) == 1,
        ;
    }
    while i < d
        invariant
            i <= d,
            d < 110,
            1 <= a <= 68630377364883,
            b <= 147808829414345923316083210206383297601,
            (a as int) * (b as int) == pow(3, d as nat),
            (quo as int) * (a as int) + (rem as int) == (q as int) * pow(2, i as nat),
            rem < a,
        decreases d - i,
    {
        if quo >= b {
            proof {
                lemma_pow_increases(2, i as nat, d as nat);
                assert((q as int) * pow(2, i as nat) <= (q as int) * pow(2, d as nat)) by (nonlinear_arith)
                    requires
                        pow(2, i as nat) <= pow(2, d as nat),
                        q >= 0,
                ;
                assert((a as int) * (b as int) <= (quo as int) * (a as int)) by (nonlinear_arith)
                    requires
                        b <= quo,
                        a >= 1,
                ;
            }
            return false;
        }
        let twice: u128 = 2 * rem;
        proof {
            lemma_fundamental_div_mod(twice as int, a as int);
            assert(twice / a <= 1) by (nonlinear_arith)
                requires
                    twice < 2 * a,
                    a >= 1,
            ;
            lemma_pow_succ(2, i as nat);
            assert((q as int) * pow(2, (i + 1) as nat) == 2 * ((q as int) * pow(2, i as nat))) by (nonlinear_arith)
                requires
                    pow(2, (i + 1) as nat) == 2 * pow(2, i as nat),
            ;
            assert((2 * quo + twice / a) as int * (a as int) + (twice % a) as int == 2 * ((quo as int)
                * (a as int) + (rem as int))) by (nonlinear_arith)
                requires
                    twice as int == (a as int) * (twice / a) as int + (twice % a) as int,
                    twice == 2 * rem,
            ;
        }
        quo = 2 * quo + twice / a;
        rem = twice % a;
        i = i + 1;
    }
    proof {
        if quo < b {
            assert((quo as int) * (a as int) + (rem as int) < (a as int) * (b as int)) by (nonlinear_arith)
                requires
                    quo < b,
                    rem < a,
            ;
        } else {
            assert((a as int) * (b as int) <= (quo as int) * (a as int)) by (nonlinear_arith)
                requires
                    b <= quo,
                    a >= 1,
            ;
        }
    }
    quo < b
}

/// Number of nodes below `t`, counted by a walk of the subtree.
fn size_u<T>(t: &Option<Box<Node<T, ()>>>) -> (r: usize)
    requires
        node_count(*t) <= usize::MAX,
    ensures
        r == node_count(*t),
    decreases *t,
{
    match t {
        None => 0,
        Some(n) => {
            let a = size_u(&n.left);
            let b = size_u(&n.right);
            1 + a + b
        },
    }
}

/// Moves the keys of `t`, in increasing order, to the end of `out`.
fn collect_descendants<T: TotalOrder>(t: Option<Box<Node<T, ()>>>, out: &mut Vec<T>)
    ensures
        ranks(final(out)@) == ranks(old(out)@) + inorder(t),
    decreases t,
{
    match t {
        None => {
            assert(ranks(out@) =~= ranks(out@) + inorder(t));
        },
        Some(node) => {
            let Node { x, meta: _, left, right } = *node;
            let ghost k = x.rank();
            let ghost before = out@;
            collect_descendants(left, out);
            let ghost mid = out@;
            out.push(x);
            assert(ranks(out@) =~= ranks(mid) + seq![k]);
            collect_descendants(right, out);
            assert(ranks(out@) =~= ranks(before) + inorder(t));
        },
    }
}

/// Builds a perfectly balanced tree on keys given in increasing order: the
/// median is the root, each half builds a subtree.
fn build_balanced<T: TotalOrder>(v: Vec<T>) -> (r: Option<Box<Node<T, ()>>>)
    requires
        strictly_increasing(ranks(v@)),
    ensures
        is_bst(r),
        inorder(r) == ranks(v@),
        keys(r) == ranks(v@).to_set(),
        node_count(r) == v@.len(),
    decreases v@.len(),
{
    let mut v = v;
    if v.len() == 0 {
        assert(ranks(v@).to_set() =~= Set::<int>::empty());
        return None;
    }
    let ghost all = ranks(v@);
    let m = v.len() / 2;
    let right_part = v.split_off(m + 1);
    let mid = v.pop().unwrap();
    proof {
        assert(ranks(v@) =~= all.subrange(0, m as int));
        assert(ranks(right_part@) =~= all.subrange(m as int + 1, all.len() as int));
        assert(mid.rank() == all[m as int]);
    }
    let left = build_balanced(v);
    let right = build_balanced(right_part);
    let node = Node { x: mid, meta: (), left, right };
    proof {
        let l = all.subrange(0, m as int);
        let rr = all.subrange(m as int + 1, all.len() as int);
        assert(all =~= l + seq![mid.rank()] + rr);
        assert forall|k: int| #[trigger] keys(node.left).contains(k) implies k < mid.rank() by {
            assert(l.contains(k));
            let i = choose|i: int| 0 <= i < l.len() && l[i] == k;
            assert(all[i] == k);
        }
        assert forall|k: int| #[trigger] keys(node.right).contains(k) implies k > mid.rank() by {
            assert(rr.contains(k));
            let i = choose|i: int| 0 <= i < rr.len() && rr[i] == k;
            assert(all[m + 1 + i] == k);
        }
        assert(is_bst(Some(Box::new(node))));
        lemma_bst_facts(Some(Box::new(node)));
        assert(inorder(Some(Box::new(node))) == all);
    }
    Some(Box::new(node))
}

/// Rebuilds the subtree `t` perfectly balanced, keeping its keys.
fn rebuild<T: TotalOrder>(t: &mut Option<Box<Node<T, ()>>>)
    requires
        is_bst(*old(t)),
    ensures
        is_bst(*final(t)),
        keys(*final(t)) == keys(*old(t)),
        node_count(*final(t)) == node_count(*old(t)),
{
    proof {
        lemma_bst_facts(*t);
    }
    let mut nodes: Vec<T> = Vec::new();
    assert(ranks(nodes@) =~= Seq::<int>::empty());
    collect_descendants(t.take(), &mut nodes);
    assert(ranks(nodes@) =~= inorder(*old(t)));
    *t = build_balanced(nodes);
}

/// What an insertion below a subtree reports to its parent.
struct Insertion {
    /// The key was absent and has been inserted.
    added: bool,
    /// The insertion was deep and no scapegoat has been rebuilt yet.
    pending: bool,
    /// Node count of the subtree, while `pending`.
    size: usize,
    /// The subtree is the new leaf itself.
    leaf: bool,
}

/// Inserts `x` below `t`, a subtree at depth `depth`. When the new node's
/// parent lies deeper than `log_{3/2}(q)`, the lowest ancestor `p` above the
/// parent with a child `w` such that `3 * size(w) > 2 * size(p)` is rebuilt.
fn add_with_depth<T: TotalOrder>(t: &mut Option<Box<Node<T, ()>>>, x: T, depth: usize, q: usize) -> (r:
    Insertion)
    requires
        is_bst(*old(t)),
        depth + node_count(*old(t)) < usize::MAX,
    ensures
        is_bst(*final(t)),
        r.added == !keys(*old(t)).contains(x.rank()),
        keys(*final(t)) == keys(*old(t)).insert(x.rank()),
        node_count(*final(t)) == node_count(*old(t)) + (if r.added { 1int } else { 0int }),
        r.pending ==> r.added && r.size == node_count(*final(t)),
    decreases *old(t),
{
    let ghost k = x.rank();
    match t.take() {
        None => {
            let parent_depth: usize = if depth > 0 { depth - 1 } else { 0 };
            let deep = deeper_than_log32_exec(parent_depth, q);
            let leaf = Node { x, meta: (), left: None, right: None };
            *t = Some(Box::new(leaf));
            proof {
                assert(keys(*t) == keys(leaf.left).union(keys(leaf.right)).insert(leaf.x.rank()));
                assert(keys(*t) =~= keys(*old(t)).insert(k));
            }
            Insertion { added: true, pending: deep, size: 1, leaf: true }
        },
        Some(mut node) => {
            proof {
                assert(keys(*old(t)) == keys(node.left).union(keys(node.right)).insert(node.x.rank()));
                lemma_bst_facts(*old(t));
            }
            match x.compare(&node.x) {
                Ordering::Equal => {
                    *t = Some(node);
                    proof {
                        assert(keys(*t) =~= keys(*old(t)).insert(k));
                    }
                    Insertion { added: false, pending: false, size: 0, leaf: false }
                },
                Ordering::Less => {
                    let res = add_with_depth(&mut node.left, x, depth + 1, q);
                    let mut out = Insertion { added: res.added, pending: false, size: 0, leaf: false };
                    let mut heavy = false;
                    if res.pending {
                        let other = size_u(&node.right);
                        let total = res.size + other + 1;
                        if !res.leaf && (res.size as u128) * 3 > (total as u128) * 2 {
                            heavy = true;
                        } else {
                            out.pending = true;
                            out.size = total;
                        }
                    }
                    *t = Some(node);
                    proof {
                        assert(keys(*t) == keys(node.left).union(keys(node.right)).insert(node.x.rank()));
                        assert(keys(*t) =~= keys(*old(t)).insert(k));
                    }
                    if heavy {
                        rebuild(t);
                    }
                    out
                },
                Ordering::Greater => {
                    let res = add_with_depth(&mut node.right, x, depth + 1, q);
                    let mut out = Insertion { added: res.added, pending: false, size: 0, leaf: false };
                    let mut heavy = false;
                    if res.pending {
                        let other = size_u(&node.left);
                        let total = res.size + other + 1;
                        if !res.leaf && (res.size as u128) * 3 > (total as u128) * 2 {
                            heavy = true;
                        } else {
                            out.pending = true;
                            out.size = total;
                        }
                    }
                    *t = Some(node);
                    proof {
                        assert(keys(*t) == keys(node.left).union(keys(node.right)).insert(node.x.rank()));
                        assert(keys(*t) =~= keys(*old(t)).insert(k));
                    }
                    if heavy {
                        rebuild(t);
                    }
                    out
                },
            }
        },
    }
}

/// Detaches the node with the smallest key of a non-empty subtree and returns its key.
fn remove_min<T: TotalOrder>(t: &mut Option<Box<Node<T, ()>>>) -> (r: T)
    requires
        old(t).is_some(),
        is_bst(*old(t)),
    ensures
        is_bst(*final(t)),
        keys(*old(t)).contains(r.rank()),
        forall|k: int| #[trigger] keys(*old(t)).contains(k) ==> r.rank() <= k,
        keys(*final(t)) == keys(*old(t)).remove(r.rank()),
    decreases *old(t),
{
    let mut node = t.take().unwrap();
    proof {
        assert(keys(*old(t)) == keys(node.left).union(keys(node.right)).insert(node.x.rank()));
    }
    if node.left.is_none() {
        proof {
            assert(keys(node.left) =~= Set::<int>::empty());
        }
        *t = node.right;
        proof {
            assert(keys(*t) =~= keys(*old(t)).remove(node.x.rank()));
        }
        node.x
    } else {
        let m = remove_min(&mut node.left);
        *t = Some(node);
        proof {
            assert(keys(*t) == keys(node.left).union(keys(node.right)).insert(node.x.rank()));
            assert(keys(*t) =~= keys(*old(t)).remove(m.rank()));
        }
        m
    }
}

/// Deletes the node with the key of `x` below `t`, if any: a node with at most
/// one child is spliced out, otherwise its key is replaced by its successor's.
fn remove_u<T: TotalOrder>(t: &mut Option<Box<Node<T, ()>>>, x: &T) -> (r: bool)
    requires
        is_bst(*old(t)),
    ensures
        is_bst(*final(t)),
        r == keys(*old(t)).contains(x.rank()),
        keys(*final(t)) == keys(*old(t)).remove(x.rank()),
    decreases *old(t),
{
    match t.take() {
        None => {
            proof {
                assert(keys(*old(t)) =~= Set::<int>::empty());
                assert(keys(*t) =~= keys(*old(t)).remove(x.rank()));
            }
            false
        },
        Some(mut node) => {
            proof {
                assert(keys(*old(t)) == keys(node.left).union(keys(node.right)).insert(node.x.rank()));
            }
            match x.compare(&node.x) {
                Ordering::Less => {
                    let removed = remove_u(&mut node.left, x);
                    *t = Some(node);
                    proof {
                        assert(keys(*t) == keys(node.left).union(keys(node.right)).insert(node.x.rank()));
                        assert(keys(*t) =~= keys(*old(t)).remove(x.rank()));
                    }
                    removed
                },
                Ordering::Greater => {
                    let removed = remove_u(&mut node.right, x);
                    *t = Some(node);
                    proof {
                        assert(keys(*t) == keys(node.left).union(keys(node.right)).insert(node.x.rank()));
                        assert(keys(*t) =~= keys(*old(t)).remove(x.rank()));
                    }
                    removed
                },
                Ordering::Equal => {
                    if node.left.is_none() {
                        proof {
                            assert(keys(node.left) =~= Set::<int>::empty());
                        }
                        *t = node.right;
                        proof {
                            assert(keys(*t) =~= keys(*old(t)).remove(x.rank()));
                        }
                    } else if node.right.is_none() {
                        proof {
                            assert(keys(node.right) =~= Set::<int>::empty());
                        }
                        *t = node.left;
                        proof {
                            assert(keys(*t) =~= keys(*old(t)).remove(x.rank()));
                        }
                    } else {
                        let ghost old_left = node.left;
                        let ghost old_right = node.right;
                        let succ = remove_min(&mut node.right);
                        node.x = succ;
                        proof {
                            assert forall|k: int| #[trigger] keys(node.left).contains(k) implies k
                                < node.x.rank() by {
                                assert(keys(old_right).contains(node.x.rank()));
                            }
                        }
                        *t = Some(node);
                        proof {
                            assert(keys(*t) == keys(node.left).union(keys(node.right)).insert(
                                node.x.rank(),
                            ));
                            assert(keys(*t) =~= keys(*old(t)).remove(x.rank()));
                        }
                    }
                    true
                },
            }
        },
    }
}

impl<T: TotalOrder> ScapegoatTree<T> {
    /// An empty tree.
    pub fn new() -> (r: Self)
        ensures
            r.wf(),
            r.contents() == Set::<int>::empty(),
    {
        let r = ScapegoatTree { n: 0, q: 0, root: None };
        proof {
            lemma_bst_facts(r.root);
        }
        r
    }
}

impl<T: TotalOrder> SSet<T> for ScapegoatTree<T> {
    closed spec fn wf(&self) -> bool {
        &&& is_bst(self.root)
        &&& self.n == keys(self.root).len()
        &&& self.n <= self.q
        &&& self.q <= 2 * self.n
    }

    closed spec fn contents(&self) -> Set<int> {
        keys(self.root)
    }

    closed spec fn traversal(&self) -> Seq<int> {
        inorder(self.root)
    }

    open spec fn key(x: &T) -> int {
        x.rank()
    }

    proof fn lemma_traversal_sorted(&self) {
        lemma_bst_facts(self.root);
    }

    fn size(&self) -> (r: usize) {
        self.n
    }

    fn add(&mut self, x: T) -> (r: bool) {
        proof {
            lemma_bst_facts(self.root);
        }
        let next_q = if self.q < usize::MAX { self.q + 1 } else { self.q };
        let res = add_with_depth(&mut self.root, x, 0, next_q);
        if res.added {
            self.n = self.n + 1;
            self.q = next_q;
        }
        proof {
            lemma_bst_facts(self.root);
        }
        res.added
    }

    fn remove(&mut self, x: &T) -> (r: bool) {
        proof {
            lemma_bst_facts(self.root);
        }
        let removed = remove_u(&mut self.root, x);
        if removed {
            self.n = self.n - 1;
            if self.q - self.n > self.n {
                rebuild(&mut self.root);
                self.q = self.n;
            }
        }
        proof {
            lemma_bst_facts(self.root);
        }
        removed
    }

    fn find(&self, x: &T) -> (r: Option<&T>) {
        find_in(&self.root, x)
    }
}

} // verus!
