use vstd::prelude::*;
use crate::interface::{strictly_increasing, SSet};
use crate::order::IntValue;

verus! {

/// A node of the trie. A node at depth `d < 64` has one child per value of
/// bit `63 - d` among the keys below it; a node at depth 64 is a leaf, whose
/// `key` is the path that leads to it and whose `jump` is the chain slot of
/// its element. An inner node that lacks its 0-child jumps to the slot of the
/// smallest key below it; one that lacks its 1-child, to that of the largest.
struct Node {
    child0: Option<Box<Node>>,
    child1: Option<Box<Node>>,
    jump: usize,
    key: u64,
}

/// The `d` most significant bits of `k`.
pub open spec fn top(k: u64, d: nat) -> u64 {
    if d == 0 {
        0
    } else {
        k >> ((64 - d) as u64)
    }
}

/// Bit `63 - d` of `k`: the branch taken below depth `d`.
pub open spec fn bit(k: u64, d: nat) -> u64 {
    (k >> ((63 - d) as u64)) & 1
}

/// Two keys that agree on their top `d` bits and differ at the next one are
/// ordered by that bit.
proof fn lemma_split(a: u64, b: u64, d: nat)
    requires
        d < 64,
        top(a, d) == top(b, d),
        bit(a, d) == 0,
        bit(b, d) == 1,
    ensures
        a < b,
{
    let s: u64 = (63 - d) as u64;
    if d == 0 {
        assert(a < b) by (bit_vector)
            requires
                (a >> 63u64) & 1 == 0,
                (b >> 63u64) & 1 == 1,
        ;
    } else {
        let t: u64 = (64 - d) as u64;
        assert(a < b) by (bit_vector)
            requires
                t == s + 1,
                s < 63,
                a >> t == b >> t,
                (a >> s) & 1 == 0,
                (b >> s) & 1 == 1,
        ;
    }
}

/// Agreeing on `d` bits and on the next one is agreeing on `d + 1` bits.
proof fn lemma_extend(a: u64, b: u64, d: nat)
    requires
        d < 64,
        top(a, d) == top(b, d),
        bit(a, d) == bit(b, d),
    ensures
        top(a, d + 1) == top(b, d + 1),
{
    let s: u64 = (63 - d) as u64;
    if d == 0 {
        assert(a >> 63u64 == b >> 63u64) by (bit_vector)
            requires
                (a >> 63u64) & 1 == (b >> 63u64) & 1,
        ;
    } else {
        let t: u64 = (64 - d) as u64;
        assert(a >> s == b >> s) by (bit_vector)
            requires
                t == s + 1,
                s < 63,
                a >> t == b >> t,
                (a >> s) & 1 == (b >> s) & 1,
        ;
    }
}

/// Agreeing on all 64 bits is equality.
proof fn lemma_full(a: u64, b: u64)
    requires
        top(a, 64) == top(b, 64),
    ensures
        a == b,
{
    assert(a >> 0u64 == a && b >> 0u64 == b) by (bit_vector);
}

/// The projections held below `t`, a subtree at depth `d`.
spec fn keys(t: Option<Box<Node>>, d: nat) -> Set<int>
    decreases t,
{
    match t {
        None => Set::empty(),
        Some(n) => {
            if d >= 64 {
                set![n.key as int]
            } else {
                keys(n.child0, d + 1).union(keys(n.child1, d + 1))
            }
        },
    }
}

/// The projections held below `t`, left to right.
spec fn leaves(t: Option<Box<Node>>, d: nat) -> Seq<int>
    decreases t,
{
    match t {
        None => Seq::empty(),
        Some(n) => {
            if d >= 64 {
                seq![n.key as int]
            } else {
                leaves(n.child0, d + 1) + leaves(n.child1, d + 1)
            }
        },
    }
}

/// All keys of `s` agree with `x` on their top `d` bits.
spec fn shares(s: Set<int>, x: u64, d: nat) -> bool {
    forall|k: int| #[trigger] s.contains(k) ==> 0 <= k <= u64::MAX && top(k as u64, d) == top(x, d)
}

/// Well-formed subtree at depth `d`: leaves exactly at depth 64, no empty
/// inner node, each child holding the keys with its bit, all keys below a
/// node agreeing on the bits of the path to it.
spec fn wf(t: Option<Box<Node>>, d: nat) -> bool
    decreases t,
{
    match t {
        None => true,
        Some(n) => {
            &&& d <= 64
            &&& if d == 64 {
                &&& n.child0.is_none()
                &&& n.child1.is_none()
            } else {
                &&& (n.child0.is_some() || n.child1.is_some())
                &&& wf(n.child0, d + 1)
                &&& wf(n.child1, d + 1)
                &&& forall|k: int| #[trigger] keys(n.child0, d + 1).contains(k) ==> bit(k as u64, d) == 0
                &&& forall|k: int| #[trigger] keys(n.child1, d + 1).contains(k) ==> bit(k as u64, d) == 1
            }
            &&& forall|k1: int, k2: int|
                #[trigger] keys(t, d).contains(k1) && #[trigger] keys(t, d).contains(k2) ==> 0 <= k1
                    <= u64::MAX && 0 <= k2 <= u64::MAX && top(k1 as u64, d) == top(k2 as u64, d)
        },
    }
}

/// The leaves of a well-formed subtree are its keys in increasing order; a
/// present subtree is not empty.
proof fn lemma_wf_facts(t: Option<Box<Node>>, d: nat)
    requires
        wf(t, d),
    ensures
        keys(t, d).finite(),
        leaves(t, d).to_set() == keys(t, d),
        strictly_increasing(leaves(t, d)),
        keys(t, d).len() == leaves(t, d).len(),
        t.is_some() ==> keys(t, d).len() > 0,
        forall|k: int| #[trigger] keys(t, d).contains(k) ==> 0 <= k <= u64::MAX,
    decreases t,
{
    match t {
        None => {
            assert(leaves(t, d).to_set() =~= keys(t, d));
        },
        Some(n) => {
            if d >= 64 {
                assert(leaves(t, d) == seq![n.key as int]);
                assert(leaves(t, d).to_set() =~= keys(t, d)) by {
                    assert(leaves(t, d)[0] == n.key as int);
                }
                assert(keys(t, d).contains(n.key as int));
            } else {
                lemma_wf_facts(n.child0, d + 1);
                lemma_wf_facts(n.child1, d + 1);
                let k0 = keys(n.child0, d + 1);
                let k1 = keys(n.child1, d + 1);
                let s0 = leaves(n.child0, d + 1);
                let s1 = leaves(n.child1, d + 1);
                let s = leaves(t, d);
                assert(keys(t, d) == k0.union(k1));
                assert(s == s0 + s1);
                assert forall|a: int, b: int| k0.contains(a) && k1.contains(b) implies a < b by {
                    assert(keys(t, d).contains(a));
                    assert(keys(t, d).contains(b));
                    lemma_split(a as u64, b as u64, d);
                }
                assert(k0.disjoint(k1));
                vstd::set_lib::lemma_set_disjoint_lens(k0, k1);
                assert forall|v: int| s.contains(v) <==> keys(t, d).contains(v) by {
                    if s.contains(v) {
                        let i = choose|i: int| 0 <= i < s.len() && s[i] == v;
                        if i < s0.len() {
                            assert(s0.contains(v));
                        } else {
                            assert(s1[i - s0.len()] == v);
                            assert(s1.contains(v));
                        }
                    }
                    if keys(t, d).contains(v) {
                        if k0.contains(v) {
                            assert(s0.to_set().contains(v));
                            let i = choose|i: int| 0 <= i < s0.len() && s0[i] == v;
                            assert(s[i] == v);
                        } else {
                            assert(s1.to_set().contains(v));
                            let i = choose|i: int| 0 <= i < s1.len() && s1[i] == v;
                            assert(s[s0.len() + i] == v);
                        }
                    }
                }
                assert(s.to_set() =~= keys(t, d));
                assert forall|i: int, j: int| 0 <= i < j < s.len() implies s[i] < s[j] by {
                    if j < s0.len() {
                    } else if i >= s0.len() {
                        assert(s[i] == s1[i - s0.len()]);
                        assert(s[j] == s1[j - s0.len()]);
                    } else {
                        assert(s0.to_set().contains(s0[i]));
                        assert(s1.to_set().contains(s1[j - s0.len()]));
                    }
                }
                if n.child0.is_some() {
                    assert(k0.len() > 0);
                } else {
                    assert(k1.len() > 0);
                }
            }
        },
    }
}

/// Bit `63 - d` of `x`, computed.
fn branch(x: u64, d: usize) -> (b: u64)
    requires
        d < 64,
    ensures
        b == bit(x, d as nat),
        b == 0 || b == 1,
{
    let s: u64 = (63 - d) as u64;
    assert((x >> s) & 1 == 0 || (x >> s) & 1 == 1) by (bit_vector);
    (x >> s) & 1
}

/// Position after `i` on a ring of `n` positions.
spec fn succ_of(n: int, i: int) -> int {
    if i + 1 < n {
        i + 1
    } else {
        0
    }
}

/// Position before `i` on a ring of `n` positions.
spec fn pred_of(n: int, i: int) -> int {
    if i > 0 {
        i - 1
    } else {
        n - 1
    }
}

/// `next` and `prev` follow the ring `r` both ways.
spec fn links_ok(r: Seq<int>, next: Seq<usize>, prev: Seq<usize>) -> bool {
    forall|i: int|
        0 <= i < r.len() ==> next[#[trigger] r[i]] as int == r[succ_of(r.len() as int, i)]
            && prev[r[i]] as int == r[pred_of(r.len() as int, i)]
}

/// The ring visits each slot at most once, and only slots below `len`.
spec fn ring_slots(r: Seq<int>, len: int) -> bool {
    &&& forall|i: int| 0 <= i < r.len() ==> 0 <= #[trigger] r[i] < len
    &&& forall|i: int, j: int| 0 <= i < r.len() && 0 <= j < r.len() && i != j ==> r[i] != r[j]
}

/// Linking slot `s` right after ring position `p`.
proof fn lemma_links_insert(
    r: Seq<int>,
    next0: Seq<usize>,
    prev0: Seq<usize>,
    p: int,
    s: int,
    next1: Seq<usize>,
    prev1: Seq<usize>,
)
    requires
        links_ok(r, next0, prev0),
        ring_slots(r, next0.len() as int),
        prev0.len() == next0.len(),
        0 <= p < r.len(),
        0 <= s < next0.len(),
        next0.len() <= usize::MAX,
        forall|i: int| 0 <= i < r.len() ==> r[i] != s,
        next1 == next0.update(s, next0[r[p]]).update(r[p], s as usize),
        prev1 == prev0.update(s, r[p] as usize).update(next0[r[p]] as int, s as usize),
    ensures
        links_ok(r.insert(p + 1, s), next1, prev1),
{
    let n = r.len() as int;
    let r2 = r.insert(p + 1, s);
    let q = p + 1;
    let pred = r[p];
    let nx = next0[pred] as int;
    assert(nx == r[succ_of(n, p)]);
    assert forall|i: int| 0 <= i < n + 1 implies #[trigger] r2[i] == (if i < q {
        r[i]
    } else if i == q {
        s
    } else {
        r[i - 1]
    }) by {}
    assert(s != pred);
    assert(nx != s);
    assert forall|i: int| 0 <= i < n + 1 implies next1[#[trigger] r2[i]] as int == r2[succ_of(n + 1, i)]
        && prev1[r2[i]] as int == r2[pred_of(n + 1, i)] by {
        if i < q {
            let ri = r[i];
            assert(r2[i] == ri);
            assert(ri != s);
            assert(next0[ri] as int == r[succ_of(n, i)]);
            assert(prev0[ri] as int == r[pred_of(n, i)]);
            if i == p {
                assert(next1[ri] as int == s);
                assert(r2[succ_of(n + 1, i)] == s);
                if ri == nx {
                    assert(prev1[ri] as int == s);
                    assert(succ_of(n, p) == p);
                    assert(n == 1);
                    assert(r2[pred_of(n + 1, i)] == s);
                } else {
                    assert(prev1[ri] == prev0[ri]);
                    if i > 0 {
                        assert(r2[i - 1] == r[i - 1]);
                    } else {
                        assert(n > 1) by {
                            if n == 1 {
                                assert(succ_of(n, p) == 0);
                            }
                        }
                        assert(r2[n] == r[n - 1]);
                    }
                }
            } else {
                assert(ri != pred);
                assert(next1[ri] == next0[ri]);
                assert(succ_of(n, i) == i + 1);
                assert(r2[i + 1] == r[i + 1]);
                if ri == nx {
                    assert(succ_of(n, p) == i) by {
                        if succ_of(n, p) != i {
                            assert(r[succ_of(n, p)] != r[i]);
                        }
                    }
                    assert(i == 0 && p == n - 1);
                    assert(prev1[ri] as int == s);
                    assert(r2[pred_of(n + 1, i)] == r2[n]);
                } else {
                    assert(prev1[ri] == prev0[ri]);
                    if i > 0 {
                        assert(r2[i - 1] == r[i - 1]);
                    } else {
                        assert(p < n - 1) by {
                            if p == n - 1 {
                                assert(nx == r[0]);
                            }
                        }
                        assert(r2[n] == r[n - 1]);
                    }
                }
            }
        } else if i == q {
            assert(r2[i] == s);
            assert(next1[s] as int == nx);
            assert(prev1[s] as int == pred);
            assert(r2[q - 1] == pred);
            if q + 1 < n + 1 {
                assert(r2[q + 1] == r[q]);
            } else {
                assert(r2[0] == r[0]);
            }
        } else {
            let ri = r[i - 1];
            assert(r2[i] == ri);
            assert(ri != s);
            assert(ri != pred);
            assert(next0[ri] as int == r[succ_of(n, i - 1)]);
            assert(prev0[ri] as int == r[pred_of(n, i - 1)]);
            assert(next1[ri] == next0[ri]);
            if i + 1 < n + 1 {
                assert(r2[i + 1] == r[i]);
            } else {
                assert(r2[0] == r[0]);
            }
            if ri == nx {
                assert(succ_of(n, p) == i - 1) by {
                    if succ_of(n, p) != i - 1 {
                        assert(r[succ_of(n, p)] != r[i - 1]);
                    }
                }
                assert(i == q + 1);
                assert(prev1[ri] as int == s);
            } else {
                assert(prev1[ri] == prev0[ri]);
                if i - 1 > q {
                    assert(r2[i - 1] == r[i - 2]);
                } else {
                    assert(i - 1 == q);
                    assert(r[i - 2] == pred);
                    assert(succ_of(n, p) == p + 1);
                    assert(nx == r[i - 1]);
                }
            }
        }
    }
}

/// The ring after position 0 lists strictly increasing values.
spec fn sorted_by(r: Seq<int>, vals: Seq<u64>) -> bool {
    forall|i: int, j: int| 1 <= i < j < r.len() ==> vals[r[i]] < vals[r[j]]
}

/// Slot `s` with value `xv`, placed after ring position `p`, keeps the values sorted.
proof fn lemma_sorted_insert(r: Seq<int>, vals0: Seq<u64>, vals1: Seq<u64>, p: int, s: int, xv: u64)
    requires
        sorted_by(r, vals0),
        0 <= p < r.len(),
        0 <= s < vals0.len(),
        forall|i: int| 0 <= i < r.len() ==> r[i] != s && 0 <= #[trigger] r[i] < vals0.len(),
        vals1 == vals0.update(s, xv),
        p == 0 || vals0[r[p]] < xv,
        p + 1 == r.len() || xv < vals0[r[p + 1]],
    ensures
        sorted_by(r.insert(p + 1, s), vals1),
        forall|i: int| 0 <= i < r.len() ==> #[trigger] vals1[r[i]] == vals0[r[i]],
{
    let q = p + 1;
    let r2 = r.insert(q, s);
    assert forall|i: int| 0 <= i < r.len() implies #[trigger] vals1[r[i]] == vals0[r[i]] by {
        assert(r[i] != s);
    }
    assert forall|i: int, j: int| 1 <= i < j < r2.len() implies vals1[r2[i]] < vals1[r2[j]] by {
        let ii = if i < q { i } else { i - 1 };
        let jj = if j < q { j } else { j - 1 };
        if i != q {
            assert(r2[i] == r[ii]);
            assert(vals1[r[ii]] == vals0[r[ii]]);
        }
        if j != q {
            assert(r2[j] == r[jj]);
            assert(vals1[r[jj]] == vals0[r[jj]]);
        }
        if i == q {
            assert(r2[i] == s);
            if jj > q {
                assert(vals0[r[q]] < vals0[r[jj]]);
            }
        } else if j == q {
            assert(r2[j] == s);
            if ii < p {
                assert(vals0[r[ii]] < vals0[r[p]]);
            }
        }
    }
}

/// Unlinking the slot at ring position `q`.
proof fn lemma_links_remove(
    r: Seq<int>,
    next0: Seq<usize>,
    prev0: Seq<usize>,
    q: int,
    next1: Seq<usize>,
    prev1: Seq<usize>,
)
    requires
        links_ok(r, next0, prev0),
        ring_slots(r, next0.len() as int),
        prev0.len() == next0.len(),
        1 <= q < r.len(),
        next1 == next0.update(prev0[r[q]] as int, next0[r[q]]),
        prev1 == prev0.update(next0[r[q]] as int, prev0[r[q]]),
    ensures
        links_ok(r.remove(q), next1, prev1),
{
    let n = r.len() as int;
    let r2 = r.remove(q);
    let s = r[q];
    let pv = prev0[s] as int;
    let nx = next0[s] as int;
    assert(pv == r[q - 1]);
    assert(nx == r[succ_of(n, q)]);
    assert forall|i: int| 0 <= i < n - 1 implies #[trigger] r2[i] == (if i < q {
        r[i]
    } else {
        r[i + 1]
    }) by {}
    assert forall|i: int| 0 <= i < n - 1 implies next1[#[trigger] r2[i]] as int == r2[succ_of(n - 1, i)]
        && prev1[r2[i]] as int == r2[pred_of(n - 1, i)] by {
        let j = if i < q { i } else { i + 1 };
        assert(r2[i] == r[j]);
        assert(next0[r[j]] as int == r[succ_of(n, j)]);
        assert(prev0[r[j]] as int == r[pred_of(n, j)]);
        if i + 1 < n - 1 {
            let j1 = if i + 1 < q { i + 1 } else { i + 2 };
            assert(r2[i + 1] == r[j1]);
        }
        if i > 0 {
            let j0 = if i - 1 < q { i - 1 } else { i };
            assert(r2[i - 1] == r[j0]);
        } else {
            let jl: int = if n - 2 < q { n - 2 } else { n - 1 };
            assert(r2[n - 2] == r[jl]);
        }
        if r[j] == pv {
            assert(j == q - 1);
        }
        if r[j] == nx {
            assert(j == succ_of(n, q));
        }
    }
}

/// The leaves of a trie, as a doubly-linked ring in increasing key order.
///
/// Slot 0 is the sentinel: its `next` is the smallest element and its `prev`
/// the largest. A slot that no element occupies is kept for reuse.
struct LeafChain<T> {
    elems: Vec<Option<T>>,
    vals: Vec<u64>,
    prev: Vec<usize>,
    next: Vec<usize>,
    free: Vec<usize>,
    ring: Ghost<Seq<int>>,
}

impl<T: IntValue> LeafChain<T> {
    /// Projection held in slot `s`.
    spec fn key_of(&self, s: int) -> int {
        self.vals@[s] as int
    }

    /// Slot `s` holds an element of the set.
    spec fn in_ring(&self, s: int) -> bool {
        exists|i: int| 1 <= i < self.ring@.len() && self.ring@[i] == s
    }

    /// Each occupied slot, mapped to the projection it holds.
    spec fn key_map(&self) -> Map<int, int> {
        Map::new(|s: int| self.in_ring(s), |s: int| self.vals@[s] as int)
    }

    /// The ring starts at the sentinel, visits every element once in strictly
    /// increasing key order, and `next` and `prev` follow it both ways.
    spec fn chain_ok(&self) -> bool {
        let r = self.ring@;
        &&& r.len() >= 1
        &&& r[0] == 0
        &&& self.vals@.len() == self.elems@.len()
        &&& self.prev@.len() == self.elems@.len()
        &&& self.next@.len() == self.elems@.len()
        &&& self.elems@.len() >= 1
        &&& self.elems@[0].is_none()
        &&& forall|i: int|
            1 <= i < r.len() ==> 1 <= #[trigger] r[i] < self.elems@.len() && self.elems@[r[i]].is_some()
                && self.elems@[r[i]].unwrap().int_spec() == self.vals@[r[i]]
        &&& sorted_by(r, self.vals@)
        &&& links_ok(r, self.next@, self.prev@)
    }

    /// Ring positions are told apart by their slots.
    proof fn lemma_ring_distinct(&self, i: int, j: int)
        requires
            self.chain_ok(),
            0 <= i < self.ring@.len(),
            0 <= j < self.ring@.len(),
            i != j,
        ensures
            self.ring@[i] != self.ring@[j],
    {
        let r = self.ring@;
        if i > 0 && j > 0 {
            if i < j {
                assert(self.key_of(r[i]) < self.key_of(r[j]));
            } else {
                assert(self.key_of(r[j]) < self.key_of(r[i]));
            }
        } else if i > 0 {
            assert(1 <= r[i]);
        } else {
            assert(1 <= r[j]);
        }
    }

    fn new() -> (c: Self)
        ensures
            c.chain_ok(),
            c.ring@ == seq![0int],
    {
        let mut elems: Vec<Option<T>> = Vec::new();
        elems.push(None);
        let mut vals: Vec<u64> = Vec::new();
        vals.push(0);
        let mut prev: Vec<usize> = Vec::new();
        prev.push(0);
        let mut next: Vec<usize> = Vec::new();
        next.push(0);
        let ghost r0 = seq![0int];
        let c = LeafChain { elems, vals, prev, next, free: Vec::new(), ring: Ghost(r0) };
        c
    }

    /// A slot that no element occupies.
    fn take_free_slot(&mut self) -> (s: usize)
        requires
            old(self).chain_ok(),
        ensures
            final(self).chain_ok(),
            final(self).ring@ == old(self).ring@,
            1 <= s < final(self).elems@.len(),
            !old(self).in_ring(s as int),
            old(self).elems@.len() <= final(self).elems@.len(),
            forall|i: int|
                0 <= i < old(self).elems@.len() ==> #[trigger] final(self).elems@[i] == old(self).elems@[i]
                    && final(self).vals@[i] == old(self).vals@[i] && final(self).prev@[i]
                    == old(self).prev@[i] && final(self).next@[i] == old(self).next@[i],
    {
        let mut s: usize = 0;
        match self.free.pop() {
            Some(i) => {
                if i != 0 && i < self.elems.len() && self.elems[i].is_none() {
                    s = i;
                }
            },
            None => {},
        }
        if s == 0 {
            s = self.elems.len();
            self.elems.push(None);
            self.vals.push(0);
            self.prev.push(0);
            self.next.push(0);
        }
        proof {
            let r = self.ring@;
            if old(self).in_ring(s as int) {
                let i = choose|i: int| 1 <= i < r.len() && r[i] == s as int;
                assert(old(self).elems@[r[i]].is_some());
            }
            assert forall|i: int|
                1 <= i < r.len() implies 1 <= #[trigger] r[i] < self.elems@.len()
                    && self.elems@[r[i]].is_some() && self.elems@[r[i]].unwrap().int_spec()
                    == self.vals@[r[i]] by {
                assert(old(self).elems@[r[i]].is_some());
            }
            assert forall|i: int|
                0 <= i < r.len() implies self.next@[#[trigger] r[i]] as int == r[succ_of(r.len() as int, i)]
                    && self.prev@[r[i]] as int == r[pred_of(r.len() as int, i)] by {
                assert(old(self).next@[r[i]] as int == r[succ_of(r.len() as int, i)]);
                if i > 0 {
                    assert(1 <= r[i] < old(self).elems@.len());
                }
            }
            assert forall|i: int, j: int| 1 <= i < j < r.len() implies self.key_of(r[i]) < self.key_of(
                r[j],
            ) by {
                assert(old(self).key_of(r[i]) < old(self).key_of(r[j]));
            }
        }
        s
    }

    /// The ring's slots are distinct and valid indices.
    proof fn lemma_slots(&self)
        requires
            self.chain_ok(),
        ensures
            ring_slots(self.ring@, self.next@.len() as int),
    {
        let r = self.ring@;
        assert forall|i: int| 0 <= i < r.len() implies 0 <= #[trigger] r[i] < self.next@.len() by {
            if i > 0 {
                assert(1 <= r[i] < self.elems@.len());
            }
        }
        assert forall|i: int, j: int| 0 <= i < r.len() && 0 <= j < r.len() && i != j implies r[i] != r[j] by {
            self.lemma_ring_distinct(i, j);
        }
    }

    /// Places `x`, with projection `xv`, in a free slot linked right after
    /// `pred`, which stands at ring position `p`.
    #[verifier::spinoff_prover]
    #[verifier::rlimit(100)]
    fn insert_after(&mut self, p: Ghost<int>, pred: usize, x: T, xv: u64) -> (s: usize)
        requires
            old(self).chain_ok(),
            0 <= p@ < old(self).ring@.len(),
            old(self).ring@[p@] == pred as int,
            xv == x.int_spec(),
            p@ == 0 || old(self).key_of(pred as int) < xv,
            p@ + 1 == old(self).ring@.len() || (xv as int) < old(self).key_of(old(self).ring@[p@ + 1]),
        ensures
            final(self).chain_ok(),
            final(self).ring@ == old(self).ring@.insert(p@ + 1, s as int),
            final(self).key_map() == old(self).key_map().insert(s as int, xv as int),
            !old(self).key_map().contains_key(s as int),
    {
        let s = self.take_free_slot();
        let total = self.next.len();
        let ghost c1 = *self;
        proof {
            c1.lemma_slots();
            assert forall|j: int| c1.in_ring(j) implies c1.vals@[j] == old(self).vals@[j] by {
                let i = choose|i: int| 1 <= i < c1.ring@.len() && c1.ring@[i] == j;
                assert(1 <= c1.ring@[i] < old(self).elems@.len());
            }
            assert(c1.key_map() =~= old(self).key_map());
        }
        self.elems.set(s, Some(x));
        self.vals.set(s, xv);
        let nx = self.next[pred];
        self.next.set(s, nx);
        self.prev.set(s, pred);
        self.prev.set(nx, s);
        self.next.set(pred, s);
        self.ring = Ghost(c1.ring@.insert(p@ + 1, s as int));
        proof {
            assert(self.next@ =~= c1.next@.update(s as int, c1.next@[pred as int]).update(pred as int, s));
            assert(self.prev@ =~= c1.prev@.update(s as int, pred).update(nx as int, s));
            assert(self.vals@ =~= c1.vals@.update(s as int, xv));
            assert(self.elems@ =~= c1.elems@.update(s as int, Some(x)));
            lemma_insert_ok(c1, *self, p@, s as int, xv);
        }
        s
    }

    /// Unlinks the element in slot `s`, at ring position `q`, and frees its slot.
    #[verifier::spinoff_prover]
    #[verifier::rlimit(40)]
    fn unlink(&mut self, q: Ghost<int>, s: usize)
        requires
            old(self).chain_ok(),
            1 <= q@ < old(self).ring@.len(),
            old(self).ring@[q@] == s as int,
        ensures
            final(self).chain_ok(),
            final(self).ring@ == old(self).ring@.remove(q@),
            final(self).key_map() == old(self).key_map().remove(s as int),
    {
        let ghost r = self.ring@;
        let ghost n = r.len();
        let ghost c1 = *self;
        proof {
            c1.lemma_slots();
            assert(c1.next@[s as int] as int == r[succ_of(n as int, q@)]);
            assert(c1.prev@[s as int] as int == r[pred_of(n as int, q@)]);
        }
        let pv = self.prev[s];
        let nx = self.next[s];
        self.next.set(pv, nx);
        self.prev.set(nx, pv);
        self.elems.set(s, None);
        self.free.push(s);
        let ghost r2 = r.remove(q@);
        self.ring = Ghost(r2);
        proof {
            lemma_links_remove(r, c1.next@, c1.prev@, q@, self.next@, self.prev@);
            let n2 = r2.len();
            assert forall|i: int| 0 <= i < n2 implies #[trigger] r2[i] == (if i < q@ {
                r[i]
            } else {
                r[i + 1]
            }) by {}
            assert forall|i: int| 1 <= i < n2 implies 1 <= #[trigger] r2[i] < self.elems@.len()
                && self.elems@[r2[i]].is_some() && self.elems@[r2[i]].unwrap().int_spec()
                == self.vals@[r2[i]] by {
                let j = if i < q@ { i } else { i + 1 };
                assert(r2[i] == r[j]);
                assert(1 <= r[j] < c1.elems@.len());
                assert(r[j] != s as int);
            }
            assert forall|i: int, j: int| 1 <= i < j < n2 implies self.key_of(r2[i]) < self.key_of(r2[j]) by {
                let ii = if i < q@ { i } else { i + 1 };
                let jj = if j < q@ { j } else { j + 1 };
                assert(c1.key_of(r[ii]) < c1.key_of(r[jj]));
            }
            lemma_map_remove(c1, *self, q@, s as int);
        }
    }

    /// Slot facts: occupied slots are valid indices, told apart by their keys.
    proof fn lemma_map_facts(&self)
        requires
            self.chain_ok(),
        ensures
            forall|j: int|
                #[trigger] self.key_map().contains_key(j) ==> 1 <= j < self.vals@.len() && self.key_map()[j]
                    == self.vals@[j] as int,
            forall|a: int, b: int|
                #[trigger] self.key_map().contains_key(a) && #[trigger] self.key_map().contains_key(b)
                    && self.key_map()[a] == self.key_map()[b] ==> a == b,
    {
        let m = self.key_map();
        let r = self.ring@;
        assert forall|j: int| #[trigger] m.contains_key(j) implies 1 <= j < self.vals@.len() && m[j]
            == self.vals@[j] as int by {
            self.lemma_occupied(j);
        }
        assert forall|a: int, b: int|
            #[trigger] m.contains_key(a) && #[trigger] m.contains_key(b) && m[a] == m[b] implies a == b by {
            let i = choose|i: int| 1 <= i < r.len() && r[i] == a;
            let k = choose|k: int| 1 <= k < r.len() && r[k] == b;
            if i < k {
                assert(self.key_of(r[i]) < self.key_of(r[k]));
            } else if k < i {
                assert(self.key_of(r[k]) < self.key_of(r[i]));
            }
        }
    }

    /// Places `x`, with projection `xv`, right after `pred`: the sentinel, or
    /// an occupied slot with a smaller key, such that no key lies between.
    fn insert_between(&mut self, pred: usize, x: T, xv: u64) -> (s: usize)
        requires
            old(self).chain_ok(),
            xv == x.int_spec(),
            pred == 0 || (old(self).key_map().contains_key(pred as int) && old(self).key_map()[pred as int]
                < xv),
            forall|t: int|
                #[trigger] old(self).key_map().contains_key(t) && (pred == 0 || old(self).key_map()[pred as int]
                    < old(self).key_map()[t]) ==> xv < old(self).key_map()[t],
        ensures
            final(self).chain_ok(),
            final(self).key_map() == old(self).key_map().insert(s as int, xv as int),
            !old(self).key_map().contains_key(s as int),
    {
        let ghost r = self.ring@;
        let ghost m = self.key_map();
        let ghost p: int = if pred == 0 {
            0
        } else {
            choose|i: int| 1 <= i < r.len() && r[i] == pred as int
        };
        proof {
            assert(r[p] == pred as int);
            if p + 1 < r.len() {
                let t = r[p + 1];
                assert(self.in_ring(t));
                assert(m.contains_key(t));
                if p > 0 {
                    assert(self.key_of(r[p]) < self.key_of(r[p + 1]));
                }
            }
        }
        self.insert_after(Ghost(p), pred, x, xv)
    }

    /// An occupied slot holds an element with its projection.
    proof fn lemma_occupied(&self, j: int)
        requires
            self.chain_ok(),
            self.key_map().contains_key(j),
        ensures
            1 <= j < self.elems@.len(),
            self.elems@[j].is_some(),
            self.elems@[j].unwrap().int_spec() as int == self.key_map()[j],
    {
        let i = choose|i: int| 1 <= i < self.ring@.len() && self.ring@[i] == j;
        assert(1 <= self.ring@[i] < self.elems@.len());
    }

    /// The slot after `j` (the sentinel, or an occupied slot) holds the smallest
    /// projection above that of `j`; it is the sentinel when there is none.
    proof fn lemma_next(&self, j: int)
        requires
            self.chain_ok(),
            j == 0 || self.key_map().contains_key(j),
        ensures
            0 <= j < self.next@.len(),
            ({
                let m = self.key_map();
                let nx = self.next@[j] as int;
                &&& nx == 0 || m.contains_key(nx)
                &&& nx != 0 && j != 0 ==> m[j] < m[nx]
                &&& forall|t: int|
                    #[trigger] m.contains_key(t) && (j == 0 || m[j] < m[t]) ==> nx != 0 && m[nx] <= m[t]
            }),
    {
        let r = self.ring@;
        let n = r.len() as int;
        let m = self.key_map();
        self.lemma_slots();
        let i = if j == 0 {
            0
        } else {
            choose|i: int| 1 <= i < r.len() && r[i] == j
        };
        assert(r[i] == j);
        let nx = self.next@[j] as int;
        assert(nx == r[succ_of(n, i)]);
        if succ_of(n, i) != 0 {
            assert(m.contains_key(nx)) by {
                assert(self.in_ring(nx));
            }
        }
        assert forall|t: int| #[trigger] m.contains_key(t) && (j == 0 || m[j] < m[t]) implies nx != 0 && m[nx]
            <= m[t] by {
            let k = choose|k: int| 1 <= k < r.len() && r[k] == t;
            if k <= i {
                if k < i {
                    assert(self.key_of(r[k]) < self.key_of(r[i]));
                }
            } else {
                assert(succ_of(n, i) == i + 1);
                if i + 1 < k {
                    assert(self.key_of(r[i + 1]) < self.key_of(r[k]));
                }
                assert(r[i + 1] != 0);
            }
        }
    }

    /// The slot before `j` (the sentinel, or an occupied slot) holds the
    /// largest projection below that of `j`; it is the sentinel when there is none.
    proof fn lemma_prev(&self, j: int)
        requires
            self.chain_ok(),
            j == 0 || self.key_map().contains_key(j),
        ensures
            0 <= j < self.prev@.len(),
            ({
                let m = self.key_map();
                let pv = self.prev@[j] as int;
                &&& pv == 0 || m.contains_key(pv)
                &&& pv != 0 && j != 0 ==> m[pv] < m[j]
                &&& forall|t: int|
                    #[trigger] m.contains_key(t) && (j == 0 || m[t] < m[j]) ==> pv != 0 && m[t] <= m[pv]
            }),
    {
        let r = self.ring@;
        let n = r.len() as int;
        let m = self.key_map();
        self.lemma_slots();
        let i = if j == 0 {
            0
        } else {
            choose|i: int| 1 <= i < r.len() && r[i] == j
        };
        assert(r[i] == j);
        let pv = self.prev@[j] as int;
        assert(pv == r[pred_of(n, i)]);
        if pred_of(n, i) != 0 {
            assert(m.contains_key(pv)) by {
                assert(self.in_ring(pv));
            }
        }
        assert forall|t: int| #[trigger] m.contains_key(t) && (j == 0 || m[t] < m[j]) implies pv != 0 && m[t]
            <= m[pv] by {
            let k = choose|k: int| 1 <= k < r.len() && r[k] == t;
            if i == 0 {
                assert(pred_of(n, i) == n - 1);
                assert(n - 1 >= 1);
                if k < n - 1 {
                    assert(self.key_of(r[k]) < self.key_of(r[n - 1]));
                }
            } else if k >= i {
                if k > i {
                    assert(self.key_of(r[i]) < self.key_of(r[k]));
                }
            } else {
                assert(pred_of(n, i) == i - 1);
                if k < i - 1 {
                    assert(self.key_of(r[k]) < self.key_of(r[i - 1]));
                }
            }
        }
    }
}

/// Linking a fresh slot `s`, holding `xv`, after ring position `p` keeps the
/// chain well formed and adds the slot to the slot map.
#[verifier::rlimit(50)]
proof fn lemma_insert_ok<T: IntValue>(c1: LeafChain<T>, c2: LeafChain<T>, p: int, s: int, xv: u64)
    requires
        c1.chain_ok(),
        c1.next@.len() <= usize::MAX,
        0 <= p < c1.ring@.len(),
        1 <= s < c1.elems@.len(),
        !c1.in_ring(s),
        p == 0 || c1.key_of(c1.ring@[p]) < xv,
        p + 1 == c1.ring@.len() || (xv as int) < c1.key_of(c1.ring@[p + 1]),
        c2.ring@ == c1.ring@.insert(p + 1, s),
        c2.vals@ == c1.vals@.update(s, xv),
        c2.elems@.len() == c1.elems@.len(),
        c2.elems@[s].is_some(),
        c2.elems@[s].unwrap().int_spec() == xv,
        forall|i: int| 0 <= i < c1.elems@.len() && i != s ==> c2.elems@[i] == c1.elems@[i],
        c2.next@ == c1.next@.update(s, c1.next@[c1.ring@[p]]).update(c1.ring@[p], s as usize),
        c2.prev@ == c1.prev@.update(s, c1.ring@[p] as usize).update(c1.next@[c1.ring@[p]] as int, s as usize),
    ensures
        c2.chain_ok(),
        c2.key_map() == c1.key_map().insert(s, xv as int),
        !c1.key_map().contains_key(s),
{
    let r = c1.ring@;
    let n = r.len();
    let q = p + 1;
    let r2 = c2.ring@;
    c1.lemma_slots();
    assert forall|i: int| 0 <= i < n implies r[i] != s by {
        if i > 0 && r[i] == s {
            assert(c1.in_ring(s));
        }
    }
    lemma_links_insert(r, c1.next@, c1.prev@, p, s, c2.next@, c2.prev@);
    lemma_elems_insert(c1, c2, p, s);
    lemma_sorted_insert(r, c1.vals@, c2.vals@, p, s, xv);
    lemma_map_insert(c1, c2, p, s, xv);
}

/// After linking slot `s`, every slot of the ring holds an element with its projection.
proof fn lemma_elems_insert<T: IntValue>(c1: LeafChain<T>, c2: LeafChain<T>, p: int, s: int)
    requires
        c1.chain_ok(),
        0 <= p < c1.ring@.len(),
        1 <= s < c1.elems@.len(),
        forall|i: int| 0 <= i < c1.ring@.len() ==> #[trigger] c1.ring@[i] != s,
        c2.ring@ == c1.ring@.insert(p + 1, s),
        c2.vals@ == c1.vals@.update(s, c2.vals@[s]),
        c2.elems@.len() == c1.elems@.len(),
        c2.elems@[s].is_some(),
        c2.elems@[s].unwrap().int_spec() == c2.vals@[s],
        forall|i: int| 0 <= i < c1.elems@.len() && i != s ==> c2.elems@[i] == c1.elems@[i],
    ensures
        forall|i: int|
            1 <= i < c2.ring@.len() ==> 1 <= #[trigger] c2.ring@[i] < c2.elems@.len() && c2.elems@[c2.ring@[i]].is_some()
                && c2.elems@[c2.ring@[i]].unwrap().int_spec() == c2.vals@[c2.ring@[i]],
{
    let r = c1.ring@;
    let r2 = c2.ring@;
    let q = p + 1;
    let n2 = r2.len();
    assert forall|i: int| 1 <= i < n2 implies 1 <= #[trigger] r2[i] < c2.elems@.len()
        && c2.elems@[r2[i]].is_some() && c2.elems@[r2[i]].unwrap().int_spec() == c2.vals@[r2[i]] by {
        if i != q {
            let j = if i < q { i } else { i - 1 };
            assert(r2[i] == r[j]);
            assert(1 <= r[j] < c1.elems@.len());
            assert(r[j] != s);
            assert(c2.vals@[r[j]] == c1.vals@[r[j]]);
        }
    }
}

/// Linking a new slot into the ring adds it to the slot map.
proof fn lemma_map_insert<T: IntValue>(c1: LeafChain<T>, c2: LeafChain<T>, p: int, s: int, xv: u64)
    requires
        0 <= p < c1.ring@.len(),
        c2.ring@ == c1.ring@.insert(p + 1, s),
        c2.vals@ == c1.vals@.update(s, xv),
        0 <= s < c1.vals@.len(),
        forall|i: int| 0 <= i < c1.ring@.len() ==> #[trigger] c1.ring@[i] != s && 0 <= c1.ring@[i] < c1.vals@.len(),
    ensures
        c2.key_map() == c1.key_map().insert(s, xv as int),
        !c1.key_map().contains_key(s),
{
    let r = c1.ring@;
    let r2 = c2.ring@;
    let q = p + 1;
    assert forall|t: int| c1.in_ring(t) implies c2.vals@[t] == c1.vals@[t] by {
        let i = choose|i: int| 1 <= i < r.len() && r[i] == t;
        assert(r[i] != s);
    }
    assert forall|t: int| c2.in_ring(t) <==> c1.in_ring(t) || t == s by {
        if c2.in_ring(t) {
            let i = choose|i: int| 1 <= i < r2.len() && r2[i] == t;
            if i < q {
                assert(r2[i] == r[i]);
                assert(c1.in_ring(t));
            } else if i > q {
                assert(r2[i] == r[i - 1]);
                assert(c1.in_ring(t));
            }
        }
        if c1.in_ring(t) {
            let i = choose|i: int| 1 <= i < r.len() && r[i] == t;
            if i < q {
                assert(r2[i] == r[i]);
            } else {
                assert(r2[i + 1] == r[i]);
            }
        }
        if t == s {
            assert(r2[q] == s);
        }
    }
    assert(c2.key_map() =~= c1.key_map().insert(s, xv as int));
}

/// Unlinking the slot at ring position `q` takes it out of the slot map.
proof fn lemma_map_remove<T: IntValue>(c1: LeafChain<T>, c2: LeafChain<T>, q: int, s: int)
    requires
        ring_slots(c1.ring@, c1.next@.len() as int),
        1 <= q < c1.ring@.len(),
        c1.ring@[q] == s,
        c2.ring@ == c1.ring@.remove(q),
        c2.vals@ == c1.vals@,
    ensures
        c2.key_map() == c1.key_map().remove(s),
{
    let r = c1.ring@;
    let r2 = c2.ring@;
    assert forall|t: int| c2.in_ring(t) <==> c1.in_ring(t) && t != s by {
        if c2.in_ring(t) {
            let i = choose|i: int| 1 <= i < r2.len() && r2[i] == t;
            let j = if i < q { i } else { i + 1 };
            assert(r2[i] == r[j]);
            assert(c1.in_ring(t));
            assert(j != q);
        }
        if c1.in_ring(t) && t != s {
            let i = choose|i: int| 1 <= i < r.len() && r[i] == t;
            if i < q {
                assert(r2[i] == r[i]);
            } else {
                assert(i != q);
                assert(r2[i - 1] == r[i]);
            }
        }
    }
    assert(c2.key_map() =~= c1.key_map().remove(s));
}


/// `k` is the smallest element of `s`.
spec fn is_min(s: Set<int>, k: int) -> bool {
    s.contains(k) && forall|z: int| #[trigger] s.contains(z) ==> k <= z
}

/// `k` is the largest element of `s`.
spec fn is_max(s: Set<int>, k: int) -> bool {
    s.contains(k) && forall|z: int| #[trigger] s.contains(z) ==> z <= k
}

/// Every leaf below `t` names an occupied slot of `m` holding its key, and
/// every jump names the slot of the subtree's smallest key (0-child missing)
/// or largest key (1-child missing).
spec fn jumps_ok(t: Option<Box<Node>>, d: nat, m: Map<int, int>) -> bool
    decreases t,
{
    match t {
        None => true,
        Some(n) => {
            if d >= 64 {
                m.contains_key(n.jump as int) && m[n.jump as int] == n.key as int
            } else {
                &&& jumps_ok(n.child0, d + 1, m)
                &&& jumps_ok(n.child1, d + 1, m)
                &&& n.child0.is_none() ==> m.contains_key(n.jump as int) && is_min(keys(t, d), m[n.jump as int])
                &&& n.child1.is_none() ==> m.contains_key(n.jump as int) && is_max(keys(t, d), m[n.jump as int])
            }
        },
    }
}

/// The jumps stay right when every slot that holds a key of the subtree keeps it.
proof fn lemma_jumps_frame(t: Option<Box<Node>>, d: nat, m1: Map<int, int>, m2: Map<int, int>)
    requires
        wf(t, d),
        jumps_ok(t, d, m1),
        forall|s: int|
            #[trigger] m1.contains_key(s) && keys(t, d).contains(m1[s]) ==> m2.contains_key(s) && m2[s] == m1[s],
    ensures
        jumps_ok(t, d, m2),
    decreases t,
{
    match t {
        None => {},
        Some(n) => {
            if d >= 64 {
                assert(keys(t, d).contains(n.key as int));
            } else {
                assert(keys(t, d) == keys(n.child0, d + 1).union(keys(n.child1, d + 1)));
                lemma_jumps_frame(n.child0, d + 1, m1, m2);
                lemma_jumps_frame(n.child1, d + 1, m1, m2);
            }
        },
    }
}

/// Each key below `t` is held by some slot of `m`.
proof fn lemma_slot_of(t: Option<Box<Node>>, d: nat, m: Map<int, int>, k: int)
    requires
        wf(t, d),
        jumps_ok(t, d, m),
        keys(t, d).contains(k),
    ensures
        exists|s: int| #[trigger] m.contains_key(s) && m[s] == k,
    decreases t,
{
    match t {
        None => {},
        Some(n) => {
            if d >= 64 {
                assert(m.contains_key(n.jump as int));
            } else {
                if keys(n.child0, d + 1).contains(k) {
                    lemma_slot_of(n.child0, d + 1, m, k);
                } else {
                    lemma_slot_of(n.child1, d + 1, m, k);
                }
            }
        },
    }
}

/// Lower-bound search below a non-empty `t`, whose keys agree with `x` on the
/// path to `t`. It returns a slot holding a key of `t` and whether that key
/// is below `x`: if not, no key of `t` lies in `[x, key)`; if so, none lies in
/// `(key, x]`, and the answer is the chain's next element.
fn find_rec(t: &Option<Box<Node>>, d: usize, x: u64, Ghost(m): Ghost<Map<int, int>>) -> (r: (usize, bool))
    requires
        wf(*t, d as nat),
        jumps_ok(*t, d as nat, m),
        t.is_some(),
        d <= 64,
        shares(keys(*t, d as nat), x, d as nat),
    ensures
        m.contains_key(r.0 as int),
        keys(*t, d as nat).contains(m[r.0 as int]),
        !r.1 ==> x <= m[r.0 as int] && forall|k: int|
            #[trigger] keys(*t, d as nat).contains(k) && x <= k ==> m[r.0 as int] <= k,
        r.1 ==> m[r.0 as int] < x && forall|k: int|
            #[trigger] keys(*t, d as nat).contains(k) && m[r.0 as int] < k ==> x < k,
    decreases 64 - d,
{
    let n = t.as_ref().unwrap();
    if d == 64 {
        proof {
            assert(keys(*t, d as nat) == set![n.key as int]);
            assert(keys(*t, d as nat).contains(n.key as int));
            lemma_full(n.key, x);
        }
        (n.jump, false)
    } else {
        let ghost k0 = keys(n.child0, d as nat + 1);
        let ghost k1 = keys(n.child1, d as nat + 1);
        proof {
            assert(keys(*t, d as nat) == k0.union(k1));
        }
        let b = branch(x, d);
        if b == 0 {
            proof {
                assert forall|k: int| #[trigger] k1.contains(k) implies (x as int) < k by {
                    assert(keys(*t, d as nat).contains(k));
                    lemma_split(x, k as u64, d as nat);
                }
            }
            if n.child0.is_none() {
                proof {
                    assert(k0 =~= Set::<int>::empty());
                }
                (n.jump, false)
            } else {
                proof {
                    assert forall|k: int| #[trigger] k0.contains(k) implies 0 <= k <= u64::MAX && top(
                        k as u64,
                        d as nat + 1,
                    ) == top(x, d as nat + 1) by {
                        assert(keys(*t, d as nat).contains(k));
                        lemma_extend(k as u64, x, d as nat);
                    }
                    assert forall|a: int, c: int| #[trigger] k0.contains(a) && #[trigger] k1.contains(c) implies a
                        < c by {
                        assert(keys(*t, d as nat).contains(a));
                        assert(keys(*t, d as nat).contains(c));
                        lemma_split(a as u64, c as u64, d as nat);
                    }
                }
                find_rec(&n.child0, d + 1, x, Ghost(m))
            }
        } else {
            proof {
                assert forall|k: int| #[trigger] k0.contains(k) implies k < (x as int) by {
                    assert(keys(*t, d as nat).contains(k));
                    lemma_split(k as u64, x, d as nat);
                }
            }
            if n.child1.is_none() {
                proof {
                    assert(k1 =~= Set::<int>::empty());
                }
                (n.jump, true)
            } else {
                proof {
                    assert forall|k: int| #[trigger] k1.contains(k) implies 0 <= k <= u64::MAX && top(
                        k as u64,
                        d as nat + 1,
                    ) == top(x, d as nat + 1) by {
                        assert(keys(*t, d as nat).contains(k));
                        lemma_extend(k as u64, x, d as nat);
                    }
                    assert forall|a: int, c: int| #[trigger] k0.contains(a) && #[trigger] k1.contains(c) implies a
                        < c by {
                        assert(keys(*t, d as nat).contains(a));
                        assert(keys(*t, d as nat).contains(c));
                        lemma_split(a as u64, c as u64, d as nat);
                    }
                }
                find_rec(&n.child1, d + 1, x, Ghost(m))
            }
        }
    }
}


/// Adds the key `xv`, held by slot `s` of the chain, below `t`, creating the
/// missing nodes on its path and moving the jumps it now ends.
fn insert_rec(
    t: &mut Option<Box<Node>>,
    d: usize,
    xv: u64,
    s: usize,
    vals: &Vec<u64>,
    Ghost(m): Ghost<Map<int, int>>,
)
    requires
        wf(*old(t), d as nat),
        jumps_ok(*old(t), d as nat, m),
        d <= 64,
        m.contains_key(s as int),
        m[s as int] == xv as int,
        !keys(*old(t), d as nat).contains(xv as int),
        shares(keys(*old(t), d as nat), xv, d as nat),
        forall|j: int| #[trigger] m.contains_key(j) ==> 0 <= j < vals@.len() && m[j] == vals@[j] as int,
    ensures
        wf(*final(t), d as nat),
        jumps_ok(*final(t), d as nat, m),
        final(t).is_some(),
        keys(*final(t), d as nat) == keys(*old(t), d as nat).insert(xv as int),
    decreases 64 - d,
{
    let ghost old_t = *t;
    let ghost old_keys = keys(*t, d as nat);
    if d == 64 {
        if t.is_some() {
            proof {
                let k = t.unwrap().key;
                assert(keys(*t, d as nat) == set![k as int]);
                assert(keys(*t, d as nat).contains(k as int));
                lemma_full(k, xv);
                assert(false);
            }
        }
        *t = Some(Box::new(Node { child0: None, child1: None, jump: s, key: xv }));
        proof {
            assert(keys(*t, d as nat) == set![xv as int]);
            assert(keys(*t, d as nat) =~= old_keys.insert(xv as int));
        }
    } else {
        let was_new = t.is_none();
        let mut node = match t.take() {
            Some(n) => n,
            None => Box::new(Node { child0: None, child1: None, jump: s, key: 0 }),
        };
        let ghost old_node = *node;
        assert(wf(node.child0, d as nat + 1));
        assert(wf(node.child1, d as nat + 1));
        assert(jumps_ok(node.child0, d as nat + 1, m));
        assert(jumps_ok(node.child1, d as nat + 1, m));
        let ghost k0 = keys(node.child0, d as nat + 1);
        let ghost k1 = keys(node.child1, d as nat + 1);
        proof {
            if was_new {
                assert(k0 =~= Set::<int>::empty());
                assert(k1 =~= Set::<int>::empty());
            }
            assert(old_keys =~= k0.union(k1));
        }
        let b = branch(xv, d);
        if b == 0 {
            proof {
                assert forall|k: int| #[trigger] k0.contains(k) implies 0 <= k <= u64::MAX && top(
                    k as u64,
                    d as nat + 1,
                ) == top(xv, d as nat + 1) by {
                    assert(old_keys.contains(k));
                    lemma_extend(k as u64, xv, d as nat);
                }
            }
            insert_rec(&mut node.child0, d + 1, xv, s, vals, Ghost(m));
        } else {
            proof {
                assert forall|k: int| #[trigger] k1.contains(k) implies 0 <= k <= u64::MAX && top(
                    k as u64,
                    d as nat + 1,
                ) == top(xv, d as nat + 1) by {
                    assert(old_keys.contains(k));
                    lemma_extend(k as u64, xv, d as nat);
                }
            }
            insert_rec(&mut node.child1, d + 1, xv, s, vals, Ghost(m));
        }
        if !was_new {
            if node.child0.is_none() {
                if xv < vals[node.jump] {
                    node.jump = s;
                }
            } else if node.child1.is_none() {
                if xv > vals[node.jump] {
                    node.jump = s;
                }
            }
        }
        let ghost nk = keys(node.child0, d as nat + 1).union(keys(node.child1, d as nat + 1));
        proof {
            assert(nk =~= old_keys.insert(xv as int));
            if !was_new {
                assert(old_t == Some(Box::new(old_node)));
                assert(keys(old_t, d as nat) == old_keys);
            }
        }
        *t = Some(node);
        proof {
            assert(keys(*t, d as nat) == nk);
            assert forall|k: int| #[trigger] keys(node.child0, d as nat + 1).contains(k) implies bit(
                k as u64,
                d as nat,
            ) == 0 by {
                if k != xv as int {
                    assert(k0.contains(k));
                }
            }
            assert forall|k: int| #[trigger] keys(node.child1, d as nat + 1).contains(k) implies bit(
                k as u64,
                d as nat,
            ) == 1 by {
                if k != xv as int {
                    assert(k1.contains(k));
                }
            }
            assert forall|a: int, c: int| #[trigger] nk.contains(a) && #[trigger] nk.contains(c) implies 0 <= a
                <= u64::MAX && 0 <= c <= u64::MAX && top(a as u64, d as nat) == top(c as u64, d as nat) by {
                if a != xv as int {
                    assert(old_keys.contains(a));
                }
                if c != xv as int {
                    assert(old_keys.contains(c));
                }
            }
            assert(wf(*t, d as nat));
            if was_new {
                assert(nk =~= set![xv as int]);
            }
        }
    }
}


/// Agreeing on `d + 1` bits is agreeing on `d` bits and on the next one.
proof fn lemma_narrow(a: u64, b: u64, d: nat)
    requires
        d < 64,
        top(a, d + 1) == top(b, d + 1),
    ensures
        top(a, d) == top(b, d),
        bit(a, d) == bit(b, d),
{
    let s: u64 = (63 - d) as u64;
    if d == 0 {
        assert((a >> 63u64) & 1 == (b >> 63u64) & 1) by (bit_vector)
            requires
                a >> 63u64 == b >> 63u64,
        ;
    } else {
        let t: u64 = (64 - d) as u64;
        assert(a >> t == b >> t && (a >> s) & 1 == (b >> s) & 1) by (bit_vector)
            requires
                t == s + 1,
                s < 63,
                a >> s == b >> s,
        ;
    }
}

/// The top bits grow with the key.
proof fn lemma_top_mono(a: u64, b: u64, d: nat)
    requires
        d <= 64,
        a <= b,
    ensures
        top(a, d) <= top(b, d),
{
    if d > 0 {
        let t: u64 = (64 - d) as u64;
        assert(a >> t <= b >> t) by (bit_vector)
            requires
                a <= b,
        ;
    }
}

/// The keys below a subtree at depth `d` on the path of `xv`: every key of
/// `whole` that agrees with `xv` on its top `d` bits, and nothing else.
spec fn region(whole: Set<int>, ks: Set<int>, xv: u64, d: nat) -> bool {
    &&& forall|k: int| #[trigger] whole.contains(k) ==> 0 <= k <= u64::MAX
    &&& forall|k: int| #[trigger] ks.contains(k) ==> whole.contains(k)
    &&& forall|k: int| #[trigger] whole.contains(k) && top(k as u64, d) == top(xv, d) ==> ks.contains(k)
    &&& shares(ks, xv, d)
}

/// After `xv`, the smallest key of its region, leaves, the next key of `whole`
/// is the region's smallest.
proof fn lemma_next_is_min(
    whole: Set<int>,
    ks: Set<int>,
    xv: u64,
    d: nat,
    m: Map<int, int>,
    nx: int,
    k: int,
)
    requires
        d <= 64,
        region(whole, ks, xv, d),
        ks.remove(xv as int).contains(k),
        forall|z: int| #[trigger] ks.remove(xv as int).contains(z) ==> xv < z,
        nx == 0 || (m.contains_key(nx) && whole.contains(m[nx]) && xv < m[nx]),
        forall|z: int| #[trigger] whole.contains(z) && xv < z ==> nx != 0 && m[nx] <= z,
    ensures
        m.contains_key(nx),
        is_min(ks.remove(xv as int), m[nx]),
{
    let rest = ks.remove(xv as int);
    assert(whole.contains(k));
    assert(nx != 0 && m[nx] <= k);
    let y = m[nx];
    lemma_top_mono(xv, y as u64, d);
    lemma_top_mono(y as u64, k as u64, d);
    assert(ks.contains(y));
    assert forall|z: int| #[trigger] rest.contains(z) implies y <= z by {
        assert(whole.contains(z));
    }
}

/// After `xv`, the largest key of its region, leaves, the previous key of `whole`
/// is the region's largest.
proof fn lemma_prev_is_max(
    whole: Set<int>,
    ks: Set<int>,
    xv: u64,
    d: nat,
    m: Map<int, int>,
    pv: int,
    k: int,
)
    requires
        d <= 64,
        region(whole, ks, xv, d),
        ks.remove(xv as int).contains(k),
        forall|z: int| #[trigger] ks.remove(xv as int).contains(z) ==> z < xv,
        pv == 0 || (m.contains_key(pv) && whole.contains(m[pv]) && m[pv] < xv),
        forall|z: int| #[trigger] whole.contains(z) && z < xv ==> pv != 0 && z <= m[pv],
    ensures
        m.contains_key(pv),
        is_max(ks.remove(xv as int), m[pv]),
{
    let rest = ks.remove(xv as int);
    assert(whole.contains(k));
    assert(pv != 0 && k <= m[pv]);
    let y = m[pv];
    lemma_top_mono(k as u64, y as u64, d);
    lemma_top_mono(y as u64, xv, d);
    assert(ks.contains(y));
    assert forall|z: int| #[trigger] rest.contains(z) implies z <= y by {
        assert(whole.contains(z));
    }
}

/// Deletes the key `xv`, held by slot `s`, from below `t`, prunes the nodes
/// left without children, and moves the jumps that named `s`: to the next
/// slot `nx` where the 0-child is missing, to the previous slot `pv` where the
/// 1-child is missing.
fn remove_rec(
    t: &mut Option<Box<Node>>,
    d: usize,
    xv: u64,
    nx: usize,
    pv: usize,
    vals: &Vec<u64>,
    Ghost(m): Ghost<Map<int, int>>,
    Ghost(whole): Ghost<Set<int>>,
)
    requires
        wf(*old(t), d as nat),
        jumps_ok(*old(t), d as nat, m),
        d <= 64,
        keys(*old(t), d as nat).contains(xv as int),
        region(whole, keys(*old(t), d as nat), xv, d as nat),
        nx == 0 || (m.contains_key(nx as int) && whole.contains(m[nx as int]) && xv < m[nx as int]),
        forall|z: int| #[trigger] whole.contains(z) && xv < z ==> nx != 0 && m[nx as int] <= z,
        pv == 0 || (m.contains_key(pv as int) && whole.contains(m[pv as int]) && m[pv as int] < xv),
        forall|z: int| #[trigger] whole.contains(z) && z < xv ==> pv != 0 && z <= m[pv as int],
        forall|j: int| #[trigger] m.contains_key(j) ==> 0 <= j < vals@.len() && m[j] == vals@[j] as int,
    ensures
        wf(*final(t), d as nat),
        jumps_ok(*final(t), d as nat, m),
        keys(*final(t), d as nat) == keys(*old(t), d as nat).remove(xv as int),
    decreases 64 - d,
{
    let ghost old_t = *t;
    let ghost old_keys = keys(*t, d as nat);
    let mut node = t.take().unwrap();
    let ghost old_node = *node;
    if d == 64 {
        proof {
            assert(old_keys == set![old_node.key as int]);
            assert(keys(*t, d as nat) =~= old_keys.remove(xv as int));
        }
    } else {
        assert(wf(node.child0, d as nat + 1));
        assert(wf(node.child1, d as nat + 1));
        assert(jumps_ok(node.child0, d as nat + 1, m));
        assert(jumps_ok(node.child1, d as nat + 1, m));
        let ghost k0 = keys(node.child0, d as nat + 1);
        let ghost k1 = keys(node.child1, d as nat + 1);
        proof {
            assert(old_keys =~= k0.union(k1));
        }
        let b = branch(xv, d);
        if b == 0 {
            proof {
                if k1.contains(xv as int) {
                    assert(bit(xv, d as nat) == 1);
                }
                assert forall|k: int| #[trigger] whole.contains(k) && top(k as u64, d as nat + 1) == top(
                    xv,
                    d as nat + 1,
                ) implies k0.contains(k) by {
                    lemma_narrow(k as u64, xv, d as nat);
                    assert(old_keys.contains(k));
                }
                assert forall|k: int| #[trigger] k0.contains(k) implies 0 <= k <= u64::MAX && top(
                    k as u64,
                    d as nat + 1,
                ) == top(xv, d as nat + 1) by {
                    assert(old_keys.contains(k));
                    lemma_extend(k as u64, xv, d as nat);
                }
                assert forall|k: int| #[trigger] k0.contains(k) implies whole.contains(k) by {
                    assert(old_keys.contains(k));
                }
            }
            remove_rec(&mut node.child0, d + 1, xv, nx, pv, vals, Ghost(m), Ghost(whole));
        } else {
            proof {
                if k0.contains(xv as int) {
                    assert(bit(xv, d as nat) == 0);
                }
                assert forall|k: int| #[trigger] whole.contains(k) && top(k as u64, d as nat + 1) == top(
                    xv,
                    d as nat + 1,
                ) implies k1.contains(k) by {
                    lemma_narrow(k as u64, xv, d as nat);
                    assert(old_keys.contains(k));
                }
                assert forall|k: int| #[trigger] k1.contains(k) implies 0 <= k <= u64::MAX && top(
                    k as u64,
                    d as nat + 1,
                ) == top(xv, d as nat + 1) by {
                    assert(old_keys.contains(k));
                    lemma_extend(k as u64, xv, d as nat);
                }
                assert forall|k: int| #[trigger] k1.contains(k) implies whole.contains(k) by {
                    assert(old_keys.contains(k));
                }
            }
            remove_rec(&mut node.child1, d + 1, xv, nx, pv, vals, Ghost(m), Ghost(whole));
        }
        let ghost n0 = keys(node.child0, d as nat + 1);
        let ghost n1 = keys(node.child1, d as nat + 1);
        let ghost nk = n0.union(n1);
        proof {
            assert(nk =~= old_keys.remove(xv as int));
            assert(old_t == Some(Box::new(old_node)));
            lemma_wf_facts(node.child0, d as nat + 1);
            lemma_wf_facts(node.child1, d as nat + 1);
        }
        if node.child0.is_none() && node.child1.is_none() {
            proof {
                assert(n0 =~= Set::<int>::empty());
                assert(n1 =~= Set::<int>::empty());
                assert(keys(*t, d as nat) =~= old_keys.remove(xv as int));
            }
        } else {
            if node.child0.is_none() {
                if b == 0 || vals[node.jump] == xv {
                    node.jump = nx;
                    proof {
                        let k = n1.choose();
                        assert(n1.len() > 0);
                        assert(n1.contains(k));
                        assert forall|z: int| #[trigger] old_keys.remove(xv as int).contains(z) implies xv < z by {
                            if b == 0 {
                                assert(n1.contains(z));
                                assert(k1.contains(z));
                                lemma_split(xv, z as u64, d as nat);
                            } else {
                                assert(old_keys.contains(z));
                            }
                        }
                        lemma_next_is_min(whole, old_keys, xv, d as nat, m, nx as int, k);
                    }
                }
            } else if node.child1.is_none() {
                if b == 1 || vals[node.jump] == xv {
                    node.jump = pv;
                    proof {
                        let k = n0.choose();
                        assert(n0.len() > 0);
                        assert(n0.contains(k));
                        assert forall|z: int| #[trigger] old_keys.remove(xv as int).contains(z) implies z < xv by {
                            if b == 1 {
                                assert(n0.contains(z));
                                assert(k0.contains(z));
                                lemma_split(z as u64, xv, d as nat);
                            } else {
                                assert(old_keys.contains(z));
                            }
                        }
                        lemma_prev_is_max(whole, old_keys, xv, d as nat, m, pv as int, k);
                    }
                }
            }
            *t = Some(node);
            proof {
                assert(keys(*t, d as nat) == nk);
                assert forall|k: int| #[trigger] n0.contains(k) implies bit(k as u64, d as nat) == 0 by {
                    assert(k0.contains(k));
                }
                assert forall|k: int| #[trigger] n1.contains(k) implies bit(k as u64, d as nat) == 1 by {
                    assert(k1.contains(k));
                }
                assert forall|a: int, c: int| #[trigger] nk.contains(a) && #[trigger] nk.contains(c) implies 0
                    <= a <= u64::MAX && 0 <= c <= u64::MAX && top(a as u64, d as nat) == top(
                    c as u64,
                    d as nat,
                ) by {
                    assert(old_keys.contains(a));
                    assert(old_keys.contains(c));
                }
                assert(wf(*t, d as nat));
            }
        }
    }
}


/// A bitwise digital search tree over 64-bit projections of the elements,
/// whose leaves are also linked, in key order, into a doubly-linked chain.
/// Every operation walks at most one root-to-leaf path of 64 bits; a search
/// that leaves the path follows a jump and at most one chain link.
pub struct BinaryTrie<T> {
    n: usize,
    root: Option<Box<Node>>,
    chain: LeafChain<T>,
}

impl<T: IntValue> BinaryTrie<T> {
    /// An empty trie.
    pub fn new() -> (r: Self)
        ensures
            r.wf(),
            r.contents() == Set::<int>::empty(),
    {
        let chain = LeafChain::new();
        let r = BinaryTrie { n: 0, root: None, chain };
        proof {
            lemma_wf_facts(r.root, 0);
            assert(r.chain.key_map() =~= Map::<int, int>::empty());
        }
        r
    }
}

impl<T: IntValue> SSet<T> for BinaryTrie<T> {
    closed spec fn wf(&self) -> bool {
        &&& self.chain.chain_ok()
        &&& wf(self.root, 0)
        &&& jumps_ok(self.root, 0, self.chain.key_map())
        &&& forall|j: int| #[trigger]
            self.chain.key_map().contains_key(j) ==> keys(self.root, 0).contains(self.chain.key_map()[j])
        &&& self.n == keys(self.root, 0).len()
    }

    closed spec fn contents(&self) -> Set<int> {
        keys(self.root, 0)
    }

    closed spec fn traversal(&self) -> Seq<int> {
        self.chain.ring@.drop_first().map_values(|s: int| self.chain.vals@[s] as int)
    }

    open spec fn key(x: &T) -> int {
        x.int_spec() as int
    }

    proof fn lemma_traversal_sorted(&self) {
        lemma_wf_facts(self.root, 0);
        let r = self.chain.ring@;
        let tr = self.traversal();
        let m = self.chain.key_map();
        assert forall|i: int| 0 <= i < tr.len() implies #[trigger] tr[i] == m[r[i + 1]] && m.contains_key(
            r[i + 1],
        ) by {
            assert(self.chain.in_ring(r[i + 1]));
        }
        assert forall|i: int, j: int| 0 <= i < j < tr.len() implies tr[i] < tr[j] by {
            assert(self.chain.key_of(r[i + 1]) < self.chain.key_of(r[j + 1]));
        }
        assert forall|k: int| tr.to_set().contains(k) <==> keys(self.root, 0).contains(k) by {
            if tr.to_set().contains(k) {
                let i = choose|i: int| 0 <= i < tr.len() && tr[i] == k;
                assert(m.contains_key(r[i + 1]));
            }
            if keys(self.root, 0).contains(k) {
                lemma_slot_of(self.root, 0, m, k);
                let t = choose|t: int| #[trigger] m.contains_key(t) && m[t] == k;
                let i = choose|i: int| 1 <= i < r.len() && r[i] == t;
                assert(tr[i - 1] == k);
            }
        }
        assert(tr.to_set() =~= keys(self.root, 0));
    }

    fn size(&self) -> (r: usize) {
        self.n
    }

    #[verifier::spinoff_prover]
    fn add(&mut self, x: T) -> (r: bool) {
        let xv = x.int_value();
        let ghost m = self.chain.key_map();
        let ghost ks = keys(self.root, 0);
        proof {
            lemma_wf_facts(self.root, 0);
            self.chain.lemma_map_facts();
        }
        let pred;
        if self.root.is_none() {
            pred = 0;
            proof {
                assert(ks =~= Set::<int>::empty());
                assert forall|t: int| #[trigger] m.contains_key(t) implies xv < m[t] by {
                    assert(ks.contains(m[t]));
                }
            }
        } else {
            let (j, above) = find_rec(&self.root, 0, xv, Ghost(m));
            if !above && self.chain.vals[j] == xv {
                proof {
                    assert(ks.insert(xv as int) =~= ks);
                }
                return false;
            }
            if above {
                pred = j;
                proof {
                    assert forall|t: int| #[trigger] m.contains_key(t) && m[j as int] < m[t] implies xv < m[t] by {
                        assert(ks.contains(m[t]));
                    }
                }
            } else {
                proof {
                    self.chain.lemma_prev(j as int);
                }
                pred = self.chain.prev[j];
                proof {
                    if pred != 0 {
                        assert(ks.contains(m[pred as int]));
                    }
                    assert forall|t: int| #[trigger] m.contains_key(t) && (pred == 0 || m[pred as int] < m[t])
                        implies xv < m[t] by {
                        assert(ks.contains(m[t]));
                    }
                }
            }
        }
        proof {
            assert(!ks.contains(xv as int)) by {
                if ks.contains(xv as int) {
                    lemma_slot_of(self.root, 0, m, xv as int);
                    let t = choose|t: int| #[trigger] m.contains_key(t) && m[t] == xv as int;
                    if pred != 0 {
                        assert(m[pred as int] < xv);
                    }
                }
            }
        }
        let s = self.chain.insert_between(pred, x, xv);
        let ghost m2 = self.chain.key_map();
        proof {
            lemma_jumps_frame(self.root, 0, m, m2);
            self.chain.lemma_map_facts();
            assert forall|k: int| #[trigger] ks.contains(k) implies 0 <= k <= u64::MAX && top(k as u64, 0) == top(
                xv,
                0,
            ) by {}
        }
        insert_rec(&mut self.root, 0, xv, s, &self.chain.vals, Ghost(m2));
        self.n = self.n + 1;
        proof {
            lemma_wf_facts(self.root, 0);
            assert forall|j: int| #[trigger] m2.contains_key(j) implies keys(self.root, 0).contains(m2[j]) by {
                if j != s as int {
                    assert(m.contains_key(j));
                }
            }
        }
        true
    }

    #[verifier::spinoff_prover]
    #[verifier::rlimit(60)]
    fn remove(&mut self, x: &T) -> (r: bool) {
        let xv = x.int_value();
        let ghost m = self.chain.key_map();
        let ghost ks = keys(self.root, 0);
        proof {
            lemma_wf_facts(self.root, 0);
            self.chain.lemma_map_facts();
        }
        if self.root.is_none() {
            proof {
                assert(ks =~= Set::<int>::empty());
                assert(ks.remove(xv as int) =~= ks);
            }
            return false;
        }
        let (s, above) = find_rec(&self.root, 0, xv, Ghost(m));
        if above || self.chain.vals[s] != xv {
            proof {
                assert(!ks.contains(xv as int));
                assert(ks.remove(xv as int) =~= ks);
            }
            return false;
        }
        proof {
            self.chain.lemma_next(s as int);
            self.chain.lemma_prev(s as int);
        }
        let nx = self.chain.next[s];
        let pv = self.chain.prev[s];
        proof {
            if nx != 0 {
                assert(ks.contains(m[nx as int]));
            }
            if pv != 0 {
                assert(ks.contains(m[pv as int]));
            }
            assert forall|z: int| #[trigger] ks.contains(z) && xv < z implies nx != 0 && m[nx as int] <= z by {
                lemma_slot_of(self.root, 0, m, z);
                let t = choose|t: int| #[trigger] m.contains_key(t) && m[t] == z;
            }
            assert forall|z: int| #[trigger] ks.contains(z) && z < xv implies pv != 0 && z <= m[pv as int] by {
                lemma_slot_of(self.root, 0, m, z);
                let t = choose|t: int| #[trigger] m.contains_key(t) && m[t] == z;
            }
            assert forall|k: int| #[trigger] ks.contains(k) implies 0 <= k <= u64::MAX && top(k as u64, 0) == top(
                xv,
                0,
            ) by {}
        }
        remove_rec(&mut self.root, 0, xv, nx, pv, &self.chain.vals, Ghost(m), Ghost(ks));
        let ghost q = choose|i: int| 1 <= i < self.chain.ring@.len() && self.chain.ring@[i] == s as int;
        proof {
            lemma_jumps_frame(self.root, 0, m, m.remove(s as int));
        }
        self.chain.unlink(Ghost(q), s);
        self.n = self.n - 1;
        proof {
            lemma_wf_facts(self.root, 0);
            let m2 = self.chain.key_map();
            assert forall|j: int| #[trigger] m2.contains_key(j) implies keys(self.root, 0).contains(m2[j]) by {
                assert(m.contains_key(j));
                assert(j != s as int);
                assert(ks.contains(m[j]));
            }
        }
        true
    }

    fn find(&self, x: &T) -> (r: Option<&T>) {
        let xv = x.int_value();
        let ghost m = self.chain.key_map();
        let ghost ks = keys(self.root, 0);
        proof {
            lemma_wf_facts(self.root, 0);
            self.chain.lemma_map_facts();
        }
        if self.root.is_none() {
            proof {
                assert(ks =~= Set::<int>::empty());
            }
            return None;
        }
        proof {
            assert forall|k: int| #[trigger] ks.contains(k) implies 0 <= k <= u64::MAX && top(k as u64, 0) == top(
                xv,
                0,
            ) by {}
        }
        let (j, above) = find_rec(&self.root, 0, xv, Ghost(m));
        if !above {
            proof {
                self.chain.lemma_occupied(j as int);
            }
            return self.chain.elems[j].as_ref();
        }
        proof {
            self.chain.lemma_next(j as int);
        }
        let nx = self.chain.next[j];
        if nx == 0 {
            proof {
                assert forall|k: int| #[trigger] ks.contains(k) implies k < xv by {
                    if k >= xv {
                        lemma_slot_of(self.root, 0, m, k);
                        let t = choose|t: int| #[trigger] m.contains_key(t) && m[t] == k;
                    }
                }
            }
            None
        } else {
            proof {
                self.chain.lemma_occupied(nx as int);
                assert(ks.contains(m[nx as int]));
                assert forall|k: int| #[trigger] ks.contains(k) && xv <= k implies m[nx as int] <= k by {
                    lemma_slot_of(self.root, 0, m, k);
                    let t = choose|t: int| #[trigger] m.contains_key(t) && m[t] == k;
                }
            }
            self.chain.elems[nx].as_ref()
        }
    }
}

} // verus!
