use vstd::prelude::*;
use core::cmp::Ordering;
use rand::rngs::SmallRng;
use crate::interface::{strictly_increasing, SSet};
use crate::order::TotalOrder;
use crate::random::{entropy_rng, gen_below, seeded_rng};

verus! {

/// Link slots per node: a node may take part in levels `0..LEVELS`.
pub const LEVELS: usize = 33;

/// The link value that points nowhere.
pub const NIL: usize = usize::MAX;

/// A probabilistically balanced sorted set: a layered linked structure whose
/// level-0 chain holds every element in increasing order, each higher level a
/// sparser sub-chain of the one below.
///
/// Nodes live in an arena addressed by index; node 0 is the head sentinel,
/// which takes part in every level. Node `u` keeps its level-`r` link in
/// `links[u * LEVELS + r]`; a removed node's slot is kept for reuse.
pub struct SkipListSSet<T> {
    keys: Vec<Option<T>>,
    levels: Vec<usize>,
    links: Vec<usize>,
    free: Vec<usize>,
    height: usize,
    n: usize,
    rng: SmallRng,
    order: Ghost<Seq<int>>,
}

/// Node of slot `i` and level `r` own different link slots.
proof fn lemma_slot_distinct(i: int, r: int, j: int, s: int)
    requires
        0 <= i,
        0 <= j,
        0 <= r < 33,
        0 <= s < 33,
        i * 33 + r == j * 33 + s,
    ensures
        i == j,
        r == s,
{
    assert(i == j && r == s) by (nonlinear_arith)
        requires
            0 <= i,
            0 <= j,
            0 <= r < 33,
            0 <= s < 33,
            i * 33 + r == j * 33 + s,
    ;
}

/// The link slot of node `u` at level `r` lies inside a table of `33 * len` slots.
proof fn lemma_slot_in_range(u: int, r: int, len: int)
    requires
        0 <= u < len,
        0 <= r < 33,
    ensures
        0 <= u * 33 + r < 33 * len,
{
    assert(0 <= u * 33 + r < 33 * len) by (nonlinear_arith)
        requires
            0 <= u < len,
            0 <= r < 33,
    ;
}

impl<T: TotalOrder> SkipListSSet<T> {
    /// Number of levels node `u` takes part in.
    spec fn lvl(&self, u: int) -> int {
        self.levels@[u] as int
    }

    /// The level-`r` link of node `u`.
    spec fn link(&self, u: int, r: int) -> int {
        self.links@[u * 33 + r] as int
    }

    /// Rank of the key of node `u`.
    spec fn key_of(&self, u: int) -> int {
        self.keys@[u].unwrap().rank()
    }

    /// Node `w` comes after node `u` in key order (everything comes after the sentinel).
    spec fn after(&self, u: int, w: int) -> bool {
        u == 0 || self.key_of(u) < self.key_of(w)
    }

    /// The level-`r` link of `u` leads to the first node after `u`, among the
    /// nodes of `ord` that take part in level `r`.
    spec fn link_ok(&self, ord: Seq<int>, u: int, r: int) -> bool {
        let v = self.link(u, r);
        if v == NIL as int {
            forall|w: int| #[trigger] ord.contains(w) && self.lvl(w) > r ==> !self.after(u, w)
        } else {
            &&& ord.contains(v)
            &&& self.lvl(v) > r
            &&& self.after(u, v)
            &&& forall|w: int| #[trigger]
                ord.contains(w) && self.lvl(w) > r && self.after(u, w) ==> self.key_of(v)
                    <= self.key_of(w)
        }
    }

    /// Every node of `ord` and the sentinel link correctly at level `r`.
    spec fn level_ok(&self, ord: Seq<int>, r: int) -> bool {
        forall|u: int|
            (u == 0 || ord.contains(u)) && r < self.lvl(u) ==> #[trigger] self.link_ok(ord, u, r)
    }

    /// A live node: a used slot with a key and between one and `height + 1` levels.
    spec fn node_ok(&self, i: int) -> bool {
        &&& 1 <= i < self.keys@.len()
        &&& self.keys@[i].is_some()
        &&& 1 <= self.levels@[i] <= self.height + 1
    }

    /// `u` is a predecessor of key `k` at level `r`: the sentinel or a node with a
    /// smaller key, after which no node of level above `r` has a key below `k`.
    spec fn is_pred(&self, ord: Seq<int>, u: int, k: int, r: int) -> bool {
        &&& u == 0 || (ord.contains(u) && self.key_of(u) < k)
        &&& self.lvl(u) > r
        &&& forall|w: int| #[trigger]
            ord.contains(w) && self.lvl(w) > r && self.after(u, w) ==> self.key_of(w) >= k
    }

    /// Nodes of `ord` are told apart by their keys.
    spec fn keys_distinct(&self, ord: Seq<int>) -> bool {
        forall|a: int, b: int|
            #[trigger] ord.contains(a) && #[trigger] ord.contains(b) && self.key_of(a) == self.key_of(b)
                ==> a == b
    }

    /// Position of node `u` in the level-0 order; -1 for the sentinel.
    spec fn pos_of(&self, u: int) -> int {
        if u == 0 {
            -1
        } else {
            choose|p: int| 0 <= p < self.order@.len() && self.order@[p] == u
        }
    }

    /// The keys in level-0 order.
    spec fn key_seq(&self) -> Seq<int> {
        self.order@.map_values(|i: int| self.key_of(i))
    }

    /// Links are well formed relative to the order `ord`.
    spec fn shape_ok(&self) -> bool {
        &&& self.keys@.len() >= 1
        &&& self.levels@.len() == self.keys@.len()
        &&& self.links@.len() == 33 * self.keys@.len()
        &&& self.keys@[0].is_none()
        &&& self.levels@[0] == 33
        &&& self.height <= 31
    }

    proof fn lemma_pos(&self, u: int)
        requires
            self.order@.contains(u),
            u != 0,
        ensures
            0 <= self.pos_of(u) < self.order@.len(),
            self.order@[self.pos_of(u)] == u,
    {
    }

    /// The invariant: the arena is well shaped, `order` lists the live nodes by
    /// increasing key, and every level is correctly linked.
    spec fn inv(&self) -> bool {
        let ord = self.order@;
        &&& self.shape_ok()
        &&& self.n == ord.len()
        &&& forall|p: int| 0 <= p < ord.len() ==> #[trigger] self.node_ok(ord[p])
        &&& forall|p: int, q: int|
            0 <= p < q < ord.len() ==> self.key_of(ord[p]) < self.key_of(ord[q])
        &&& forall|r: int| 0 <= r < 33 ==> #[trigger] self.level_ok(ord, r)
    }

    /// Node `v` of `ord` with a larger key than node `u` sits later in `ord`.
    proof fn lemma_later(&self, u: int, v: int)
        requires
            self.inv(),
            u == 0 || self.order@.contains(u),
            self.order@.contains(v),
            self.after(u, v),
        ensures
            self.pos_of(u) < self.pos_of(v),
    {
        let ord = self.order@;
        self.lemma_live_nonzero(v);
        self.lemma_pos(v);
        let pv = self.pos_of(v);
        if u != 0 {
            self.lemma_pos(u);
            let pu = self.pos_of(u);
            if pv < pu {
                assert(self.key_of(ord[pv]) < self.key_of(ord[pu]));
            }
        }
    }

    /// Nodes of `order` are live slots, never the sentinel.
    proof fn lemma_live_nonzero(&self, v: int)
        requires
            self.inv(),
            self.order@.contains(v),
        ensures
            self.node_ok(v),
            v != 0,
    {
        let p = choose|p: int| 0 <= p < self.order@.len() && self.order@[p] == v;
        assert(self.node_ok(self.order@[p]));
    }

    /// Nodes of `ord` are told apart by their keys.
    proof fn lemma_key_injective(&self, u: int, v: int)
        requires
            self.inv(),
            self.order@.contains(u),
            self.order@.contains(v),
            self.key_of(u) == self.key_of(v),
        ensures
            u == v,
    {
        let ord = self.order@;
        let pu = choose|p: int| 0 <= p < ord.len() && ord[p] == u;
        let pv = choose|p: int| 0 <= p < ord.len() && ord[p] == v;
        if pu < pv {
            assert(self.key_of(ord[pu]) < self.key_of(ord[pv]));
        } else if pv < pu {
            assert(self.key_of(ord[pv]) < self.key_of(ord[pu]));
        }
    }

    /// Level `r` stays correctly linked when nothing it reads changes.
    proof fn lemma_level_frame(s0: &Self, s1: &Self, ord: Seq<int>, r: int)
        requires
            s0.level_ok(ord, r),
            forall|i: int|
                (i == 0 || ord.contains(i)) ==> #[trigger] s1.lvl(i) == s0.lvl(i) && s1.key_of(i)
                    == s0.key_of(i),
            forall|i: int|
                (i == 0 || ord.contains(i)) && r < s0.lvl(i) ==> #[trigger] s1.link(i, r) == s0.link(
                    i,
                    r,
                ),
        ensures
            s1.level_ok(ord, r),
    {
        assert forall|u: int| (u == 0 || ord.contains(u)) && r < s1.lvl(u) implies #[trigger] s1.link_ok(
            ord,
            u,
            r,
        ) by {
            assert(s1.lvl(u) == s0.lvl(u));
            assert(s0.link_ok(ord, u, r));
            assert(s1.link(u, r) == s0.link(u, r));
            let v = s0.link(u, r);
            if v != NIL as int {
                assert(s1.lvl(v) == s0.lvl(v));
                assert(s1.key_of(v) == s0.key_of(v));
                assert forall|w: int| #[trigger]
                    ord.contains(w) && s1.lvl(w) > r && s1.after(u, w) implies s1.key_of(v)
                    <= s1.key_of(w) by {
                    assert(s1.lvl(w) == s0.lvl(w));
                    assert(s1.key_of(w) == s0.key_of(w));
                }
            } else {
                assert forall|w: int| #[trigger] ord.contains(w) && s1.lvl(w) > r implies !s1.after(
                    u,
                    w,
                ) by {
                    assert(s1.lvl(w) == s0.lvl(w));
                    assert(s1.key_of(w) == s0.key_of(w));
                }
            }
        }
    }

    /// A level that a node does not reach is unaffected when the node joins `ord`.
    proof fn lemma_level_add_low(&self, ord: Seq<int>, ord1: Seq<int>, w0: int, r: int)
        requires
            self.level_ok(ord, r),
            self.lvl(w0) <= r,
            w0 != 0,
            forall|i: int| #[trigger] ord1.contains(i) <==> ord.contains(i) || i == w0,
        ensures
            self.level_ok(ord1, r),
    {
        assert forall|u: int| (u == 0 || ord1.contains(u)) && r < self.lvl(u) implies #[trigger] self.link_ok(
            ord1,
            u,
            r,
        ) by {
            assert(u != w0);
            assert(self.link_ok(ord, u, r));
            let v = self.link(u, r);
            if v != NIL as int {
                assert(ord1.contains(v));
                assert forall|w: int| #[trigger]
                    ord1.contains(w) && self.lvl(w) > r && self.after(u, w) implies self.key_of(v)
                    <= self.key_of(w) by {
                    assert(ord.contains(w));
                }
            } else {
                assert forall|w: int| #[trigger] ord1.contains(w) && self.lvl(w) > r implies !self.after(
                    u,
                    w,
                ) by {
                    assert(ord.contains(w));
                }
            }
        }
    }

    /// A level that a node does not reach is unaffected when the node leaves `ord`.
    proof fn lemma_level_remove_low(&self, ord: Seq<int>, ord1: Seq<int>, d: int, r: int)
        requires
            self.level_ok(ord, r),
            self.lvl(d) <= r,
            forall|i: int| #[trigger] ord1.contains(i) <==> ord.contains(i) && i != d,
        ensures
            self.level_ok(ord1, r),
    {
        assert forall|u: int| (u == 0 || ord1.contains(u)) && r < self.lvl(u) implies #[trigger] self.link_ok(
            ord1,
            u,
            r,
        ) by {
            assert(self.link_ok(ord, u, r));
            let v = self.link(u, r);
            if v != NIL as int {
                assert(ord1.contains(v));
                assert forall|w: int| #[trigger]
                    ord1.contains(w) && self.lvl(w) > r && self.after(u, w) implies self.key_of(v)
                    <= self.key_of(w) by {
                    assert(ord.contains(w));
                }
            } else {
                assert forall|w: int| #[trigger] ord1.contains(w) && self.lvl(w) > r implies !self.after(
                    u,
                    w,
                ) by {
                    assert(ord.contains(w));
                }
            }
        }
    }
}


/// Number of trailing one bits of `v`, a value below `u32::MAX`: a level
/// count that is `h` with probability `2^-(h+1)` for a uniform `v`.
fn trailing_ones(v: u32) -> (r: usize)
    ensures
        r <= 31,
{
    let mut count: usize = 0;
    let mut w: u32 = v;
    while count < 31 && w & 1 == 1
        invariant
            count <= 31,
        decreases 31 - count,
    {
        w = w >> 1;
        count = count + 1;
    }
    count
}

/// Draws the top level of a new node.
fn pick_height(rng: &mut SmallRng) -> (h: usize)
    ensures
        h <= 31,
{
    let bits = gen_below(rng, u32::MAX);
    trailing_ones(bits)
}

impl<T: TotalOrder> SkipListSSet<T> {
    /// Index of the level-`r` link slot of node `u`.
    fn slot(&self, u: usize, r: usize) -> (i: usize)
        requires
            self.shape_ok(),
            u < self.keys@.len(),
            r < 33,
        ensures
            i == u * 33 + r,
            i < self.links@.len(),
    {
        let total = self.links.len();
        proof {
            lemma_slot_in_range(u as int, r as int, self.keys@.len() as int);
        }
        u * LEVELS + r
    }

    /// `inv` gives what the searches use.
    proof fn lemma_inv_facts(&self)
        requires
            self.inv(),
        ensures
            self.keys_distinct(self.order@),
            forall|i: int| #[trigger] self.order@.contains(i) ==> self.node_ok(i),
    {
        assert forall|a: int, b: int|
            #[trigger] self.order@.contains(a) && #[trigger] self.order@.contains(b) && self.key_of(a)
                == self.key_of(b) implies a == b by {
            self.lemma_key_injective(a, b);
        }
        assert forall|i: int| #[trigger] self.order@.contains(i) implies self.node_ok(i) by {
            self.lemma_live_nonzero(i);
        }
    }

    /// The invariant reads neither the free list nor the generator.
    proof fn lemma_inv_frame(s0: &Self, s1: &Self)
        requires
            s0.inv(),
            s1.keys@ == s0.keys@,
            s1.levels@ == s0.levels@,
            s1.links@ == s0.links@,
            s1.height == s0.height,
            s1.n == s0.n,
            s1.order@ == s0.order@,
        ensures
            s1.inv(),
    {
        let ord = s0.order@;
        assert forall|r: int| 0 <= r < 33 implies #[trigger] s1.level_ok(ord, r) by {
            assert(s0.level_ok(ord, r));
            SkipListSSet::lemma_level_frame(s0, s1, ord, r);
        }
        assert forall|p: int| 0 <= p < ord.len() implies #[trigger] s1.node_ok(ord[p]) by {
            assert(s0.node_ok(ord[p]));
        }
        assert forall|p: int, q: int| 0 <= p < q < ord.len() implies s1.key_of(ord[p]) < s1.key_of(
            ord[q],
        ) by {
            assert(s0.key_of(ord[p]) < s0.key_of(ord[q]));
        }
    }

    /// Whether the key of live node `v` is below `x`.
    fn key_below(&self, v: usize, x: &T) -> (r: bool)
        requires
            self.inv(),
            self.order@.contains(v as int),
        ensures
            r == (self.key_of(v as int) < x.rank()),
    {
        proof {
            self.lemma_live_nonzero(v as int);
        }
        match &self.keys[v] {
            Some(k) => matches!(k.compare(x), Ordering::Less),
            None => false,
        }
    }

    /// Whether the key of live node `v` equals that of `x`.
    fn key_equals(&self, v: usize, x: &T) -> (r: bool)
        requires
            self.inv(),
            self.order@.contains(v as int),
        ensures
            r == (self.key_of(v as int) == x.rank()),
    {
        proof {
            self.lemma_live_nonzero(v as int);
        }
        match &self.keys[v] {
            Some(k) => matches!(k.compare(x), Ordering::Equal),
            None => false,
        }
    }

    /// For each level `r <= top`, the node after which the search for `x`
    /// leaves level `r`: the predecessor of `x` at that level.
    fn find_preds(&self, x: &T, top: usize) -> (preds: Vec<usize>)
        requires
            self.inv(),
            self.height <= top,
            top <= 31,
        ensures
            preds@.len() == top + 1,
            forall|r: int| 0 <= r <= top ==> self.is_pred(self.order@, #[trigger] preds@[r] as int, x.rank(), r),
    {
        let ghost ord = self.order@;
        let ghost k = x.rank();
        proof {
            self.lemma_inv_facts();
        }
        let mut preds: Vec<usize> = Vec::new();
        let mut i: usize = 0;
        while i <= top
            invariant
                preds@.len() == i,
                i <= top + 1,
                top <= 31,
            decreases top + 1 - i,
        {
            preds.push(0);
            i = i + 1;
        }
        let mut u: usize = 0;
        let mut done: usize = 0;
        while done <= top
            invariant
                self.inv(),
                ord == self.order@,
                k == x.rank(),
                self.keys_distinct(ord),
                forall|i: int| #[trigger] ord.contains(i) ==> self.node_ok(i),
                self.height <= top,
                top <= 31,
                done <= top + 1,
                preds@.len() == top + 1,
                u == 0 || (ord.contains(u as int) && self.key_of(u as int) < k),
                done <= top ==> self.lvl(u as int) > top - done,
                done <= top ==> forall|w: int| #[trigger]
                    ord.contains(w) && self.lvl(w) > top - done + 1 && self.after(u as int, w) ==> self.key_of(w)
                        >= k,
                forall|r2: int| top - done < r2 <= top ==> self.is_pred(ord, #[trigger] preds@[r2] as int, k, r2),
            decreases top + 1 - done,
        {
            let r = top - done;
            proof {
                if u != 0 {
                    assert(self.node_ok(u as int));
                }
                lemma_slot_in_range(u as int, r as int, self.keys@.len() as int);
            }
            let mut v = self.links[self.slot(u, r)];
            proof {
                assert(self.level_ok(ord, r as int));
                assert(self.link_ok(ord, u as int, r as int));
            }
            while v != NIL && self.key_below(v, x)
                invariant
                    self.inv(),
                    ord == self.order@,
                    k == x.rank(),
                    self.keys_distinct(ord),
                    forall|i: int| #[trigger] ord.contains(i) ==> self.node_ok(i),
                    r <= 31,
                    u == 0 || (ord.contains(u as int) && self.key_of(u as int) < k),
                    self.lvl(u as int) > r,
                    forall|w: int| #[trigger]
                        ord.contains(w) && self.lvl(w) > r + 1 && self.after(u as int, w) ==> self.key_of(w)
                            >= k,
                    v as int == self.link(u as int, r as int),
                    self.link_ok(ord, u as int, r as int),
                decreases ord.len() - self.pos_of(u as int),
            {
                proof {
                    self.lemma_later(u as int, v as int);
                    self.lemma_pos(v as int);
                    self.lemma_live_nonzero(v as int);
                    assert(self.level_ok(ord, r as int));
                    assert(self.link_ok(ord, v as int, r as int));
                    lemma_slot_in_range(v as int, r as int, self.keys@.len() as int);
                    assert forall|w: int| #[trigger]
                        ord.contains(w) && self.lvl(w) > r + 1 && self.after(v as int, w) implies self.key_of(w)
                            >= k by {
                        assert(self.after(u as int, w));
                    }
                }
                u = v;
                v = self.links[self.slot(u, r)];
            }
            proof {
                assert forall|w: int| #[trigger]
                    ord.contains(w) && self.lvl(w) > r && self.after(u as int, w) implies self.key_of(w)
                        >= k by {
                    if v != NIL {
                        assert(self.key_of(v as int) <= self.key_of(w));
                    }
                }
            }
            preds.set(r, u);
            done = done + 1;
        }
        preds
    }
}


impl<T: TotalOrder> SkipListSSet<T> {
    /// The keys held.
    spec fn key_set(&self) -> Set<int> {
        Set::new(|k: int| exists|i: int| #[trigger] self.order@.contains(i) && self.key_of(i) == k)
    }

    /// A predecessor stays one when nothing it reads changes.
    proof fn lemma_pred_frame(s0: &Self, s1: &Self, ord: Seq<int>, u: int, k: int, r: int)
        requires
            s0.is_pred(ord, u, k, r),
            forall|i: int|
                (i == 0 || ord.contains(i)) ==> #[trigger] s1.lvl(i) == s0.lvl(i) && s1.key_of(i)
                    == s0.key_of(i),
        ensures
            s1.is_pred(ord, u, k, r),
    {
        assert(s1.lvl(u) == s0.lvl(u));
        assert forall|w: int| #[trigger]
            ord.contains(w) && s1.lvl(w) > r && s1.after(u, w) implies s1.key_of(w) >= k by {
            assert(s1.lvl(w) == s0.lvl(w));
            assert(s1.key_of(w) == s0.key_of(w));
        }
    }

    /// Linking a new node `wi` with key `k` after the level-`r` predecessor `u`
    /// of `k` keeps level `r` correctly linked, with `wi` added to the order.
    proof fn lemma_splice_in(
        s0: &Self,
        s1: &Self,
        ord: Seq<int>,
        ord1: Seq<int>,
        u: int,
        wi: int,
        k: int,
        r: int,
    )
        requires
            s0.level_ok(ord, r),
            s0.is_pred(ord, u, k, r),
            s0.keys_distinct(ord),
            forall|w: int| #[trigger] ord.contains(w) ==> s0.key_of(w) != k,
            !ord.contains(wi),
            wi != 0,
            wi != NIL as int,
            s0.key_of(wi) == k,
            s0.lvl(wi) > r,
            forall|i: int| #[trigger] ord1.contains(i) <==> ord.contains(i) || i == wi,
            s1.keys@ == s0.keys@,
            s1.levels@ == s0.levels@,
            s1.link(wi, r) == s0.link(u, r),
            s1.link(u, r) == wi,
            forall|i: int|
                (i == 0 || ord.contains(i)) && i != u && r < s0.lvl(i) ==> #[trigger] s1.link(i, r)
                    == s0.link(i, r),
        ensures
            s1.level_ok(ord1, r),
    {
        assert(s0.link_ok(ord, u, r));
        assert forall|u2: int| (u2 == 0 || ord1.contains(u2)) && r < s1.lvl(u2) implies #[trigger] s1.link_ok(
            ord1,
            u2,
            r,
        ) by {
            if u2 == u {
                assert(ord1.contains(wi));
                assert(s1.after(u, wi));
                assert forall|w: int| #[trigger]
                    ord1.contains(w) && s1.lvl(w) > r && s1.after(u2, w) implies s1.key_of(wi)
                    <= s1.key_of(w) by {
                    if w != wi {
                        assert(ord.contains(w));
                    }
                }
            } else if u2 == wi {
                let v = s0.link(u, r);
                if v == NIL as int {
                    assert forall|w: int| #[trigger] ord1.contains(w) && s1.lvl(w) > r implies !s1.after(
                        u2,
                        w,
                    ) by {
                        if w != wi && s1.after(u2, w) {
                            assert(ord.contains(w));
                            assert(s0.after(u, w));
                        }
                    }
                } else {
                    assert(ord.contains(v));
                    assert(ord1.contains(v));
                    assert(s0.key_of(v) >= k);
                    assert(s0.key_of(v) != k);
                    assert forall|w: int| #[trigger]
                        ord1.contains(w) && s1.lvl(w) > r && s1.after(u2, w) implies s1.key_of(v)
                        <= s1.key_of(w) by {
                        if w != wi {
                            assert(ord.contains(w));
                            assert(s0.after(u, w));
                        }
                    }
                }
            } else {
                assert(ord.contains(u2) || u2 == 0);
                assert(s0.link_ok(ord, u2, r));
                let v = s0.link(u2, r);
                if v == NIL as int {
                    assert forall|w: int| #[trigger] ord1.contains(w) && s1.lvl(w) > r implies !s1.after(
                        u2,
                        w,
                    ) by {
                        if w == wi && s1.after(u2, w) {
                            if u == 0 {
                                assert(u2 != 0);
                                assert(s0.key_of(u2) >= k);
                            } else {
                                if u2 == 0 || s0.key_of(u2) < s0.key_of(u) {
                                    assert(s0.after(u2, u));
                                } else if s0.key_of(u) < s0.key_of(u2) {
                                    assert(s0.after(u, u2));
                                } else {
                                    assert(u2 == u);
                                }
                            }
                        } else if w != wi {
                            assert(ord.contains(w));
                        }
                    }
                } else {
                    assert forall|w: int| #[trigger]
                        ord1.contains(w) && s1.lvl(w) > r && s1.after(u2, w) implies s1.key_of(v)
                        <= s1.key_of(w) by {
                        if w == wi {
                            if u == 0 {
                                assert(u2 != 0);
                                assert(s0.key_of(u2) >= k);
                            } else {
                                if u2 == 0 || s0.key_of(u2) < s0.key_of(u) {
                                    assert(s0.after(u2, u));
                                    assert(s0.key_of(v) <= s0.key_of(u));
                                } else if s0.key_of(u) < s0.key_of(u2) {
                                    assert(s0.after(u, u2));
                                } else {
                                    assert(u2 == u);
                                }
                            }
                        } else {
                            assert(ord.contains(w));
                        }
                    }
                }
            }
        }
    }

    /// Unlinking node `d` with key `k` behind the level-`r` predecessor `u` of
    /// `k` keeps level `r` correctly linked, with `d` taken out of the order.
    proof fn lemma_splice_out(
        s0: &Self,
        s1: &Self,
        ord: Seq<int>,
        ord2: Seq<int>,
        u: int,
        d: int,
        k: int,
        r: int,
    )
        requires
            s0.level_ok(ord, r),
            s0.is_pred(ord, u, k, r),
            s0.keys_distinct(ord),
            ord.contains(d),
            d != 0,
            s0.key_of(d) == k,
            s0.lvl(d) > r,
            forall|i: int| #[trigger] ord2.contains(i) <==> ord.contains(i) && i != d,
            s1.keys@ == s0.keys@,
            s1.levels@ == s0.levels@,
            s1.link(u, r) == s0.link(d, r),
            forall|i: int|
                (i == 0 || ord.contains(i)) && i != u && r < s0.lvl(i) ==> #[trigger] s1.link(i, r)
                    == s0.link(i, r),
        ensures
            s1.level_ok(ord2, r),
    {
        assert(s0.link_ok(ord, d, r));
        assert forall|u2: int| (u2 == 0 || ord2.contains(u2)) && r < s1.lvl(u2) implies #[trigger] s1.link_ok(
            ord2,
            u2,
            r,
        ) by {
            if u2 == u {
                let v = s0.link(d, r);
                if v == NIL as int {
                    assert forall|w: int| #[trigger] ord2.contains(w) && s1.lvl(w) > r implies !s1.after(
                        u2,
                        w,
                    ) by {
                        if s1.after(u2, w) {
                            assert(ord.contains(w));
                            assert(s0.key_of(w) >= k);
                            assert(s0.key_of(w) != k);
                            assert(s0.after(d, w));
                        }
                    }
                } else {
                    assert(s0.after(d, v));
                    assert(ord2.contains(v));
                    assert forall|w: int| #[trigger]
                        ord2.contains(w) && s1.lvl(w) > r && s1.after(u2, w) implies s1.key_of(v)
                        <= s1.key_of(w) by {
                        assert(ord.contains(w));
                        assert(s0.key_of(w) >= k);
                        assert(s0.key_of(w) != k);
                        assert(s0.after(d, w));
                    }
                }
            } else {
                assert(s0.link_ok(ord, u2, r));
                let v = s0.link(u2, r);
                if v != NIL as int {
                    if v == d {
                        if u == 0 {
                            assert(u2 != 0);
                            assert(s0.key_of(u2) >= k);
                        } else {
                            if u2 == 0 || s0.key_of(u2) < s0.key_of(u) {
                                assert(s0.after(u2, u));
                            } else if s0.key_of(u) < s0.key_of(u2) {
                                assert(s0.after(u, u2));
                            } else {
                                assert(u2 == u);
                            }
                        }
                    }
                    assert(ord2.contains(v));
                    assert forall|w: int| #[trigger]
                        ord2.contains(w) && s1.lvl(w) > r && s1.after(u2, w) implies s1.key_of(v)
                        <= s1.key_of(w) by {
                        assert(ord.contains(w));
                    }
                } else {
                    assert forall|w: int| #[trigger] ord2.contains(w) && s1.lvl(w) > r implies !s1.after(
                        u2,
                        w,
                    ) by {
                        assert(ord.contains(w));
                    }
                }
            }
        }
    }
}


impl<T: TotalOrder> SkipListSSet<T> {
    /// A slot for a new node holding `x` with `lv` levels and no links: a
    /// released slot when one is at hand, else a fresh one.
    fn take_slot(&mut self, x: T, lv: usize) -> (wi: usize)
        requires
            old(self).shape_ok(),
            forall|i: int| #[trigger] old(self).order@.contains(i) ==> old(self).node_ok(i),
        ensures
            final(self).shape_ok(),
            final(self).order@ == old(self).order@,
            final(self).n == old(self).n,
            final(self).height == old(self).height,
            old(self).keys@.len() <= final(self).keys@.len(),
            1 <= wi < final(self).keys@.len(),
            !old(self).order@.contains(wi as int),
            final(self).keys@[wi as int] == Some(x),
            final(self).levels@[wi as int] == lv,
            forall|r: int| 0 <= r < 33 ==> #[trigger] final(self).link(wi as int, r) == NIL as int,
            forall|i: int|
                0 <= i < old(self).keys@.len() && i != wi ==> #[trigger] final(self).keys@[i]
                    == old(self).keys@[i] && final(self).levels@[i] == old(self).levels@[i],
            forall|i: int, r: int|
                0 <= i < old(self).keys@.len() && i != wi && 0 <= r < 33
                    ==> #[trigger] final(self).link(i, r) == old(self).link(i, r),
    {
        let ghost len0 = self.keys@.len();
        let mut wi: usize = 0;
        match self.free.pop() {
            Some(i) => {
                if i != 0 && i < self.keys.len() && self.keys[i].is_none() {
                    wi = i;
                }
            },
            None => {},
        }
        proof {
            if wi != 0 {
                if self.order@.contains(wi as int) {
                    assert(self.node_ok(wi as int));
                }
            }
        }
        if wi == 0 {
            wi = self.keys.len();
            self.keys.push(None);
            self.levels.push(0);
            let mut r: usize = 0;
            while r < LEVELS
                invariant
                    r <= 33,
                    wi == len0,
                    self.links@.len() == 33 * len0 + r,
                    forall|j: int| 0 <= j < 33 * len0 ==> #[trigger] self.links@[j] == old(self).links@[j],
                    self.keys@ == old(self).keys@.push(None),
                    self.levels@ == old(self).levels@.push(0),
                    self.height == old(self).height,
                    self.n == old(self).n,
                    self.order@ == old(self).order@,
                    old(self).shape_ok(),
                    len0 == old(self).keys@.len(),
                decreases 33 - r,
            {
                self.links.push(NIL);
                r = r + 1;
            }
        }
        proof {
            assert(!old(self).order@.contains(wi as int)) by {
                if old(self).order@.contains(wi as int) {
                    assert(old(self).node_ok(wi as int));
                }
            }
            assert forall|i: int, r2: int|
                0 <= i < len0 && 0 <= r2 < 33 implies #[trigger] self.link(i, r2) == old(self).link(i, r2) by {
                lemma_slot_in_range(i, r2, len0 as int);
            }
        }
        self.keys.set(wi, Some(x));
        self.levels.set(wi, lv);
        let mut r: usize = 0;
        while r < LEVELS
            invariant
                r <= 33,
                self.shape_ok(),
                len0 <= self.keys@.len(),
                len0 == old(self).keys@.len(),
                1 <= wi < self.keys@.len(),
                self.keys@[wi as int] == Some(x),
                self.levels@[wi as int] == lv,
                self.height == old(self).height,
                self.n == old(self).n,
                self.order@ == old(self).order@,
                forall|i: int|
                    0 <= i < len0 && i != wi ==> #[trigger] self.keys@[i] == old(self).keys@[i]
                        && self.levels@[i] == old(self).levels@[i],
                forall|r2: int| 0 <= r2 < r ==> #[trigger] self.link(wi as int, r2) == NIL as int,
                forall|i: int, r2: int|
                    0 <= i < len0 && i != wi && 0 <= r2 < 33 ==> #[trigger] self.link(i, r2)
                        == old(self).link(i, r2),
            decreases 33 - r,
        {
            let sl = self.slot(wi, r);
            let ghost prev = *self;
            self.links.set(sl, NIL);
            proof {
                assert forall|i: int, r2: int|
                    0 <= i < len0 && i != wi && 0 <= r2 < 33 implies #[trigger] self.link(i, r2)
                        == old(self).link(i, r2) by {
                    lemma_slot_in_range(i, r2, self.keys@.len() as int);
                    assert(prev.link(i, r2) == old(self).link(i, r2));
                    if i * 33 + r2 == sl {
                        lemma_slot_distinct(i, r2, wi as int, r as int);
                    }
                }
                assert forall|r2: int| 0 <= r2 < r + 1 implies #[trigger] self.link(wi as int, r2)
                    == NIL as int by {
                    lemma_slot_in_range(wi as int, r2, self.keys@.len() as int);
                    if r2 < r {
                        assert(prev.link(wi as int, r2) == NIL as int);
                    }
                    if r2 < r && wi * 33 + r2 == sl {
                        lemma_slot_distinct(wi as int, r2, wi as int, r as int);
                    }
                }
            }
            r = r + 1;
        }
        wi
    }
}


impl<T: TotalOrder> SkipListSSet<T> {
    /// An empty set whose node levels come from a generator seeded by the
    /// operating system.
    pub fn new() -> (r: Self)
        ensures
            r.wf(),
            r.contents() == Set::<int>::empty(),
    {
        Self::with_rng(entropy_rng())
    }

    /// An empty set whose node levels come from a generator seeded with `seed`.
    pub fn with_seed(seed: u64) -> (r: Self)
        ensures
            r.wf(),
            r.contents() == Set::<int>::empty(),
    {
        Self::with_rng(seeded_rng(seed))
    }

    fn with_rng(rng: SmallRng) -> (r: Self)
        ensures
            r.wf(),
            r.contents() == Set::<int>::empty(),
    {
        let mut links: Vec<usize> = Vec::new();
        let mut i: usize = 0;
        while i < LEVELS
            invariant
                i <= 33,
                links@.len() == i,
                forall|j: int| 0 <= j < i ==> links@[j] == NIL,
            decreases 33 - i,
        {
            links.push(NIL);
            i = i + 1;
        }
        let mut keys: Vec<Option<T>> = Vec::new();
        keys.push(None);
        let mut levels: Vec<usize> = Vec::new();
        levels.push(LEVELS);
        let r = SkipListSSet {
            keys,
            levels,
            links,
            free: Vec::new(),
            height: 0,
            n: 0,
            rng,
            order: Ghost(Seq::empty()),
        };
        proof {
            assert forall|lv: int| 0 <= lv < 33 implies #[trigger] r.level_ok(r.order@, lv) by {
                assert forall|u: int| (u == 0 || r.order@.contains(u)) && lv < r.lvl(u) implies #[trigger] r.link_ok(
                    r.order@,
                    u,
                    lv,
                ) by {
                    assert(u == 0);
                    assert(r.link(0, lv) == NIL as int);
                }
            }
            assert(r.key_set() =~= Set::<int>::empty());
        }
        r
    }
}

impl<T: TotalOrder> SSet<T> for SkipListSSet<T> {
    closed spec fn wf(&self) -> bool {
        self.inv()
    }

    closed spec fn contents(&self) -> Set<int> {
        self.key_set()
    }

    closed spec fn traversal(&self) -> Seq<int> {
        self.key_seq()
    }

    open spec fn key(x: &T) -> int {
        x.rank()
    }

    proof fn lemma_traversal_sorted(&self) {
        let ks = self.key_seq();
        let ord = self.order@;
        assert(ks.to_set() =~= self.key_set()) by {
            assert forall|k: int| ks.to_set().contains(k) implies self.key_set().contains(k) by {
                let p = choose|p: int| 0 <= p < ks.len() && ks[p] == k;
                assert(ord.contains(ord[p]));
            }
            assert forall|k: int| self.key_set().contains(k) implies ks.to_set().contains(k) by {
                let i = choose|i: int| #[trigger] ord.contains(i) && self.key_of(i) == k;
                let p = choose|p: int| 0 <= p < ord.len() && ord[p] == i;
                assert(ks[p] == k);
            }
        }
        vstd::seq_lib::seq_to_set_is_finite(ks);
    }

    fn size(&self) -> (r: usize) {
        proof {
            self.lemma_size();
        }
        self.n
    }

    fn add(&mut self, x: T) -> (res: bool) {
        proof {
            self.lemma_size();
        }
        self.insert_key(x)
    }

    fn remove(&mut self, x: &T) -> (res: bool) {
        self.remove_key(x)
    }

    fn find(&self, x: &T) -> (r: Option<&T>) {
        let ghost ord = self.order@;
        let ghost k = x.rank();
        proof {
            self.lemma_inv_facts();
        }
        let preds = self.find_preds(x, self.height);
        let pred0 = preds[0];
        proof {
            assert(self.is_pred(ord, pred0 as int, k, 0));
            if pred0 != 0 {
                assert(self.node_ok(pred0 as int));
            }
            assert(self.level_ok(ord, 0));
            assert(self.link_ok(ord, pred0 as int, 0));
        }
        let v0 = self.links[self.slot(pred0, 0)];
        if v0 == NIL {
            proof {
                assert forall|z: int| #[trigger] self.key_set().contains(z) implies z < k by {
                    let w = choose|w: int| #[trigger] ord.contains(w) && self.key_of(w) == z;
                    assert(self.node_ok(w));
                    if z >= k {
                        assert(self.after(pred0 as int, w));
                    }
                }
            }
            None
        } else {
            proof {
                assert(self.node_ok(v0 as int));
                assert(self.key_of(v0 as int) >= k);
                assert(self.key_set().contains(self.key_of(v0 as int)));
                assert forall|z: int| #[trigger] self.key_set().contains(z) && k <= z implies self.key_of(
                    v0 as int,
                ) <= z by {
                    let w = choose|w: int| #[trigger] ord.contains(w) && self.key_of(w) == z;
                    assert(self.node_ok(w));
                    assert(self.after(pred0 as int, w));
                }
            }
            self.keys[v0].as_ref()
        }
    }
}

impl<T: TotalOrder> SkipListSSet<T> {
    /// The element count is the number of keys held.
    proof fn lemma_size(&self)
        requires
            self.inv(),
        ensures
            self.key_set().finite(),
            self.key_set().len() == self.n,
    {
        let ks = self.key_seq();
        let ord = self.order@;
        self.lemma_traversal_sorted();
        assert(ks.no_duplicates()) by {
            assert forall|i: int, j: int| 0 <= i < ks.len() && 0 <= j < ks.len() && i != j implies ks[i]
                != ks[j] by {
                if i < j {
                    assert(self.key_of(ord[i]) < self.key_of(ord[j]));
                } else {
                    assert(self.key_of(ord[j]) < self.key_of(ord[i]));
                }
            }
        }
        ks.unique_seq_to_set();
    }

    /// Inserts `x` unless its key is present.
    fn insert_key(&mut self, x: T) -> (res: bool)
        requires
            old(self).inv(),
            old(self).n < usize::MAX,
        ensures
            final(self).inv(),
            res == !old(self).key_set().contains(x.rank()),
            final(self).key_set() == old(self).key_set().insert(x.rank()),
    {
        let ghost k = x.rank();
        let ghost ord = self.order@;
        let ghost s0 = *self;
        proof {
            self.lemma_inv_facts();
        }
        let h = pick_height(&mut self.rng);
        proof {
            SkipListSSet::lemma_inv_frame(&s0, self);
            self.lemma_inv_facts();
        }
        let top = if h > self.height { h } else { self.height };
        let preds = self.find_preds(&x, top);
        let pred0 = preds[0];
        proof {
            assert(self.is_pred(ord, pred0 as int, k, 0));
            if pred0 != 0 {
                assert(self.node_ok(pred0 as int));
            }
            assert(self.level_ok(ord, 0));
            assert(self.link_ok(ord, pred0 as int, 0));
        }
        let v0 = self.links[self.slot(pred0, 0)];
        if v0 != NIL && self.key_equals(v0, &x) {
            proof {
                assert(self.key_set().contains(k));
                assert(self.key_set().insert(k) =~= self.key_set());
            }
            return false;
        }
        proof {
            assert forall|w: int| #[trigger] ord.contains(w) implies self.key_of(w) != k by {
                if self.key_of(w) == k {
                    assert(self.node_ok(w));
                    assert(self.after(pred0 as int, w));
                    if v0 != NIL {
                        assert(self.key_of(v0 as int) <= k);
                        assert(self.key_of(v0 as int) >= k);
                    }
                }
            }
            assert(!self.key_set().contains(k));
        }
        let ghost pos: int = if pred0 == 0 { 0 } else { self.pos_of(pred0 as int) + 1 };
        proof {
            if pred0 != 0 {
                self.lemma_pos(pred0 as int);
            }
        }
        let ghost s1 = *self;
        let wi = self.take_slot(x, h + 1);
        let ghost s2 = *self;
        let ghost ord1 = ord.subrange(0, pos) + seq![wi as int] + ord.subrange(pos, ord.len() as int);
        proof {
            assert forall|i: int| (i == 0 || ord.contains(i)) implies #[trigger] s2.lvl(i) == s1.lvl(i)
                && s2.key_of(i) == s1.key_of(i) by {
                if i != 0 {
                    assert(s1.node_ok(i));
                }
                assert(i != wi);
                assert(0 <= i < s1.keys@.len());
                assert(s2.keys@[i] == s1.keys@[i]);
                assert(s2.levels@[i] == s1.levels@[i]);
            }
            assert forall|i: int| (i == 0 || ord.contains(i)) && 0 <= 0 implies #[trigger] s2.link(i, 0)
                == s1.link(i, 0) by {
                if i != 0 {
                    assert(s1.node_ok(i));
                }
            }
            assert forall|r2: int| 0 <= r2 < 33 implies #[trigger] s2.level_ok(ord, r2) by {
                assert(s1.level_ok(ord, r2));
                assert forall|i: int| (i == 0 || ord.contains(i)) && r2 < s1.lvl(i) implies #[trigger] s2.link(
                    i,
                    r2,
                ) == s1.link(i, r2) by {
                    if i != 0 {
                        assert(s1.node_ok(i));
                    }
                }
                SkipListSSet::lemma_level_frame(&s1, &s2, ord, r2);
            }
            assert forall|r2: int| 0 <= r2 <= top implies #[trigger] s2.is_pred(ord, preds@[r2] as int, k, r2) by {
                assert(s1.is_pred(ord, preds@[r2] as int, k, r2));
                SkipListSSet::lemma_pred_frame(&s1, &s2, ord, preds@[r2] as int, k, r2);
            }
            assert forall|i: int| #[trigger] ord.contains(i) implies s2.key_of(i) != k && s2.lvl(i)
                <= top + 1 && 1 <= i < s2.keys@.len() && s2.keys@[i].is_some() && 1 <= s2.lvl(i) by {
                assert(s1.node_ok(i));
                assert(s1.key_of(i) != k);
            }
            assert(s2.keys_distinct(ord));
            assert forall|i: int| #[trigger] ord1.contains(i) <==> ord.contains(i) || i == wi by {
                if ord1.contains(i) {
                    let p = choose|p: int| 0 <= p < ord1.len() && ord1[p] == i;
                    if p < pos {
                        assert(ord[p] == i);
                    } else if p > pos {
                        assert(ord[p - 1] == i);
                    }
                }
                if ord.contains(i) {
                    let p = choose|p: int| 0 <= p < ord.len() && ord[p] == i;
                    if p < pos {
                        assert(ord1[p] == i);
                    } else {
                        assert(ord1[p + 1] == i);
                    }
                }
                if i == wi {
                    assert(ord1[pos] == i);
                }
            }
        }
        let mut r: usize = 0;
        while r <= h
            invariant
                r <= h + 1,
                h <= top,
                top <= 31,
                preds@.len() == top + 1,
                1 <= wi < self.keys@.len(),
                self.keys@ == s2.keys@,
                self.levels@ == s2.levels@,
                self.links@.len() == s2.links@.len(),
                self.order@ == ord,
                self.height == s2.height,
                self.n == s2.n,
                s2.shape_ok(),
                s2.key_of(wi as int) == k,
                s2.lvl(wi as int) == h + 1,
                !ord.contains(wi as int),
                s2.keys_distinct(ord),
                forall|i: int| #[trigger] ord1.contains(i) <==> ord.contains(i) || i == wi,
                forall|i: int| #[trigger] ord.contains(i) ==> s2.key_of(i) != k && 1 <= i < s2.keys@.len(),
                forall|r2: int| 0 <= r2 < 33 ==> #[trigger] s2.level_ok(ord, r2),
                forall|r2: int| 0 <= r2 <= top ==> #[trigger] s2.is_pred(ord, preds@[r2] as int, k, r2),
                forall|i: int, r2: int|
                    0 <= i < self.keys@.len() && r <= r2 < 33 ==> #[trigger] self.link(i, r2)
                        == s2.link(i, r2),
                forall|r2: int| 0 <= r2 < r ==> #[trigger] self.level_ok(ord1, r2),
            decreases h + 1 - r,
        {
            let u = preds[r];
            proof {
                assert(s2.is_pred(ord, u as int, k, r as int));
                if u != 0 {
                    assert(ord.contains(u as int));
                }
            }
            let su = self.slot(u, r);
            let sw = self.slot(wi, r);
            let nxt = self.links[su];
            let ghost before = *self;
            self.links.set(sw, nxt);
            self.links.set(su, wi);
            proof {
                let len = self.keys@.len() as int;
                assert forall|i: int, r2: int|
                    0 <= i < len && 0 <= r2 < 33 && !(i == u && r2 == r) && !(i == wi && r2 == r) implies #[trigger] self.link(
                    i,
                    r2,
                ) == before.link(i, r2) by {
                    lemma_slot_in_range(i, r2, len);
                    if i * 33 + r2 == su {
                        lemma_slot_distinct(i, r2, u as int, r as int);
                    }
                    if i * 33 + r2 == sw {
                        lemma_slot_distinct(i, r2, wi as int, r as int);
                    }
                }
                assert forall|i: int| (i == 0 || ord.contains(i)) && r < before.lvl(i) implies #[trigger] before.link(
                    i,
                    r as int,
                ) == s2.link(i, r as int) by {
                }
                SkipListSSet::lemma_level_frame(&s2, &before, ord, r as int);
                SkipListSSet::lemma_pred_frame(&s2, &before, ord, u as int, k, r as int);
                assert forall|i: int|
                    (i == 0 || ord.contains(i)) && i != u && r < before.lvl(i) implies #[trigger] self.link(
                    i,
                    r as int,
                ) == before.link(i, r as int) by {
                }
                assert(self.link(wi as int, r as int) == before.link(u as int, r as int));
                assert(self.link(u as int, r as int) == wi);
                SkipListSSet::lemma_splice_in(&before, self, ord, ord1, u as int, wi as int, k, r as int);
                assert forall|r2: int| 0 <= r2 < r + 1 implies #[trigger] self.level_ok(ord1, r2) by {
                    if r2 < r {
                        assert(before.level_ok(ord1, r2));
                        assert forall|i: int| (i == 0 || ord1.contains(i)) && r2 < before.lvl(i) implies #[trigger] self.link(
                            i,
                            r2,
                        ) == before.link(i, r2) by {
                        }
                        SkipListSSet::lemma_level_frame(&before, self, ord1, r2);
                    }
                }
            }
            r = r + 1;
        }
        let ghost s4 = *self;
        self.order = Ghost(ord1);
        self.height = top;
        self.n = self.n + 1;
        proof {
            assert forall|r2: int| 0 <= r2 < 33 implies #[trigger] self.level_ok(ord1, r2) by {
                if r2 <= h {
                    assert(s4.level_ok(ord1, r2));
                    SkipListSSet::lemma_level_frame(&s4, self, ord1, r2);
                }
                if r2 > h {
                    assert forall|i: int| (i == 0 || ord.contains(i)) && r2 < s2.lvl(i) implies #[trigger] self.link(
                        i,
                        r2,
                    ) == s2.link(i, r2) by {
                        assert(s4.link(i, r2) == s2.link(i, r2));
                    }
                    SkipListSSet::lemma_level_frame(&s2, self, ord, r2);
                    self.lemma_level_add_low(ord, ord1, wi as int, r2);
                }
            }
            assert forall|p: int| 0 <= p < ord1.len() implies #[trigger] self.node_ok(ord1[p]) by {
                assert(ord1.contains(ord1[p]));
            }
            assert forall|i: int| #[trigger] ord.contains(i) implies self.key_of(i) == s1.key_of(i) by {
                assert(s2.key_of(i) == s1.key_of(i));
            }
            assert(self.key_of(wi as int) == k);
            assert(s1.inv());
            assert forall|p: int, q: int| 0 <= p < q < ord1.len() implies self.key_of(ord1[p]) < self.key_of(
                ord1[q],
            ) by {
                if p < pos {
                    assert(ord1[p] == ord[p]);
                    assert(ord.contains(ord[p]));
                } else if p > pos {
                    assert(ord1[p] == ord[p - 1]);
                    assert(ord.contains(ord[p - 1]));
                } else {
                    assert(ord1[p] == wi);
                }
                if q < pos {
                    assert(ord1[q] == ord[q]);
                    assert(ord.contains(ord[q]));
                } else if q > pos {
                    assert(ord1[q] == ord[q - 1]);
                    assert(ord.contains(ord[q - 1]));
                } else {
                    assert(ord1[q] == wi);
                }
                if q < pos {
                    assert(s1.key_of(ord[p]) < s1.key_of(ord[q]));
                } else if q == pos {
                    if p < pos - 1 {
                        assert(s1.key_of(ord[p]) < s1.key_of(ord[pos - 1]));
                    }
                } else if p < pos {
                    assert(s1.key_of(ord[p]) < s1.key_of(ord[q - 1]));
                } else if p == pos {
                    if pred0 != 0 {
                        assert(s1.key_of(ord[pos - 1]) < s1.key_of(ord[q - 1]));
                    }
                    assert(s1.after(pred0 as int, ord[q - 1]));
                    assert(s1.node_ok(ord[q - 1]));
                } else {
                    assert(s1.key_of(ord[p - 1]) < s1.key_of(ord[q - 1]));
                }
            }
            assert(self.key_set() =~= s0.key_set().insert(k)) by {
                assert forall|z: int| self.key_set().contains(z) implies s0.key_set().insert(k).contains(z) by {
                    let w = choose|w: int| #[trigger] ord1.contains(w) && self.key_of(w) == z;
                    if w != wi {
                        assert(ord.contains(w));
                        assert(s1.node_ok(w));
                    }
                }
                assert forall|z: int| s0.key_set().insert(k).contains(z) implies self.key_set().contains(z) by {
                    if z == k {
                        assert(ord1.contains(wi as int));
                    } else {
                        let w = choose|w: int| #[trigger] ord.contains(w) && s0.key_of(w) == z;
                        assert(ord1.contains(w));
                        assert(s1.node_ok(w));
                    }
                }
            }
        }
        true
    }
}


impl<T: TotalOrder> SkipListSSet<T> {
    /// Deletes the node with the key of `x`, if any, unlinking it at every
    /// level it takes part in, then lowers the height past emptied levels.
    fn remove_key(&mut self, x: &T) -> (res: bool)
        requires
            old(self).inv(),
        ensures
            final(self).inv(),
            res == old(self).key_set().contains(x.rank()),
            final(self).key_set() == old(self).key_set().remove(x.rank()),
    {
        let ghost k = x.rank();
        let ghost ord = self.order@;
        let ghost s0 = *self;
        proof {
            self.lemma_inv_facts();
        }
        let top = self.height;
        let preds = self.find_preds(x, top);
        let pred0 = preds[0];
        proof {
            assert(self.is_pred(ord, pred0 as int, k, 0));
            if pred0 != 0 {
                assert(self.node_ok(pred0 as int));
            }
            assert(self.level_ok(ord, 0));
            assert(self.link_ok(ord, pred0 as int, 0));
        }
        let v0 = self.links[self.slot(pred0, 0)];
        if v0 == NIL || !self.key_equals(v0, x) {
            proof {
                assert forall|w: int| #[trigger] ord.contains(w) implies self.key_of(w) != k by {
                    if self.key_of(w) == k {
                        assert(self.node_ok(w));
                        assert(self.after(pred0 as int, w));
                        if v0 != NIL {
                            assert(self.key_of(v0 as int) <= k);
                            assert(self.key_of(v0 as int) >= k);
                        }
                    }
                }
                assert(self.key_set().remove(k) =~= self.key_set());
            }
            return false;
        }
        let d = v0;
        proof {
            assert(ord.contains(d as int));
            assert(self.node_ok(d as int));
            self.lemma_pos(d as int);
        }
        let lv = self.levels[d];
        let ghost pd = self.pos_of(d as int);
        let ghost ord2 = ord.subrange(0, pd) + ord.subrange(pd + 1, ord.len() as int);
        proof {
            assert forall|i: int| #[trigger] ord2.contains(i) <==> ord.contains(i) && i != d by {
                if ord2.contains(i) {
                    let p = choose|p: int| 0 <= p < ord2.len() && ord2[p] == i;
                    if p < pd {
                        assert(ord[p] == i);
                        assert(self.key_of(ord[p]) < self.key_of(ord[pd]));
                    } else {
                        assert(ord[p + 1] == i);
                        assert(self.key_of(ord[pd]) < self.key_of(ord[p + 1]));
                    }
                }
                if ord.contains(i) && i != d {
                    let p = choose|p: int| 0 <= p < ord.len() && ord[p] == i;
                    if p < pd {
                        assert(ord2[p] == i);
                    } else {
                        assert(p != pd);
                        assert(ord2[p - 1] == i);
                    }
                }
            }
        }
        let ghost s2 = *self;
        let mut r: usize = 0;
        while r < lv
            invariant
                r <= lv,
                lv == s2.lvl(d as int),
                1 <= lv <= top + 1,
                top <= 31,
                preds@.len() == top + 1,
                self.keys@ == s2.keys@,
                self.levels@ == s2.levels@,
                self.links@.len() == s2.links@.len(),
                self.order@ == ord,
                self.height == s2.height,
                self.n == s2.n,
                self.free@ == s2.free@,
                s2.inv(),
                s2.order@ == ord,
                s2.key_of(d as int) == k,
                ord.contains(d as int),
                d != 0,
                s2.keys_distinct(ord),
                forall|i: int| #[trigger] ord2.contains(i) <==> ord.contains(i) && i != d,
                forall|i: int| #[trigger] ord.contains(i) ==> s2.node_ok(i),
                forall|r2: int| 0 <= r2 <= top ==> #[trigger] s2.is_pred(ord, preds@[r2] as int, k, r2),
                forall|i: int, r2: int|
                    0 <= i < self.keys@.len() && r <= r2 < 33 ==> #[trigger] self.link(i, r2)
                        == s2.link(i, r2),
                forall|r2: int| 0 <= r2 < r ==> #[trigger] self.level_ok(ord2, r2),
            decreases lv - r,
        {
            let u = preds[r];
            proof {
                assert(s2.is_pred(ord, u as int, k, r as int));
                if u != 0 {
                    assert(s2.node_ok(u as int));
                }
                assert(s2.node_ok(d as int));
            }
            let su = self.slot(u, r);
            let sd = self.slot(d, r);
            let nxt = self.links[sd];
            let ghost before = *self;
            self.links.set(su, nxt);
            proof {
                let len = self.keys@.len() as int;
                assert forall|i: int, r2: int|
                    0 <= i < len && 0 <= r2 < 33 && !(i == u && r2 == r) implies #[trigger] self.link(i, r2)
                    == before.link(i, r2) by {
                    lemma_slot_in_range(i, r2, len);
                    if i * 33 + r2 == su {
                        lemma_slot_distinct(i, r2, u as int, r as int);
                    }
                }
                assert(s2.level_ok(ord, r as int));
                assert forall|i: int| (i == 0 || ord.contains(i)) && r < before.lvl(i) implies #[trigger] before.link(
                    i,
                    r as int,
                ) == s2.link(i, r as int) by {
                    if i != 0 {
                        assert(s2.node_ok(i));
                    }
                }
                SkipListSSet::lemma_level_frame(&s2, &before, ord, r as int);
                SkipListSSet::lemma_pred_frame(&s2, &before, ord, u as int, k, r as int);
                assert(before.keys_distinct(ord));
                assert forall|i: int|
                    (i == 0 || ord.contains(i)) && i != u && r < before.lvl(i) implies #[trigger] self.link(
                    i,
                    r as int,
                ) == before.link(i, r as int) by {
                    if i != 0 {
                        assert(s2.node_ok(i));
                    }
                }
                assert(self.link(u as int, r as int) == before.link(d as int, r as int));
                SkipListSSet::lemma_splice_out(&before, self, ord, ord2, u as int, d as int, k, r as int);
                assert forall|r2: int| 0 <= r2 < r + 1 implies #[trigger] self.level_ok(ord2, r2) by {
                    if r2 < r {
                        assert(before.level_ok(ord2, r2));
                        assert forall|i: int| (i == 0 || ord2.contains(i)) && r2 < before.lvl(i) implies #[trigger] self.link(
                            i,
                            r2,
                        ) == before.link(i, r2) by {
                            if i != 0 {
                                assert(s2.node_ok(i));
                            }
                        }
                        SkipListSSet::lemma_level_frame(&before, self, ord2, r2);
                    }
                }
            }
            r = r + 1;
        }
        let ghost s3 = *self;
        self.keys.set(d, None);
        self.free.push(d);
        self.order = Ghost(ord2);
        self.n = self.n - 1;
        proof {
            assert forall|i: int| (i == 0 || ord2.contains(i)) implies #[trigger] self.lvl(i) == s3.lvl(i)
                && self.key_of(i) == s3.key_of(i) by {
            }
            assert forall|r2: int| 0 <= r2 < 33 implies #[trigger] self.level_ok(ord2, r2) by {
                if r2 >= lv {
                    assert(s2.level_ok(ord, r2));
                    assert forall|i: int| (i == 0 || ord.contains(i)) && r2 < s2.lvl(i) implies #[trigger] s3.link(
                        i,
                        r2,
                    ) == s2.link(i, r2) by {
                        if i != 0 {
                            assert(s2.node_ok(i));
                        }
                    }
                    SkipListSSet::lemma_level_frame(&s2, &s3, ord, r2);
                    s3.lemma_level_remove_low(ord, ord2, d as int, r2);
                }
                assert(s3.level_ok(ord2, r2));
                assert forall|i: int| (i == 0 || ord2.contains(i)) && r2 < s3.lvl(i) implies #[trigger] self.link(
                    i,
                    r2,
                ) == s3.link(i, r2) by {
                }
                SkipListSSet::lemma_level_frame(&s3, self, ord2, r2);
            }
            assert forall|p: int| 0 <= p < ord2.len() implies #[trigger] self.node_ok(ord2[p]) by {
                assert(ord2.contains(ord2[p]));
                assert(s2.node_ok(ord2[p]));
            }
            assert forall|p: int, q: int| 0 <= p < q < ord2.len() implies self.key_of(ord2[p]) < self.key_of(
                ord2[q],
            ) by {
                let pp = if p < pd { p } else { p + 1 };
                let qq = if q < pd { q } else { q + 1 };
                assert(ord2[p] == ord[pp]);
                assert(ord2[q] == ord[qq]);
                assert(s2.key_of(ord[pp]) < s2.key_of(ord[qq]));
                assert(ord2.contains(ord2[p]));
                assert(ord2.contains(ord2[q]));
            }
            assert(self.key_set() =~= s0.key_set().remove(k)) by {
                assert forall|z: int| self.key_set().contains(z) implies s0.key_set().remove(k).contains(z) by {
                    let w = choose|w: int| #[trigger] ord2.contains(w) && self.key_of(w) == z;
                    assert(ord.contains(w));
                    if z == k {
                        assert(s2.keys_distinct(ord));
                        assert(s2.key_of(w) == s2.key_of(d as int));
                    }
                }
                assert forall|z: int| s0.key_set().remove(k).contains(z) implies self.key_set().contains(z) by {
                    let w = choose|w: int| #[trigger] ord.contains(w) && s0.key_of(w) == z;
                    assert(w != d);
                    assert(ord2.contains(w));
                }
            }
        }
        while self.height > 0 && self.links[self.slot(0, self.height)] == NIL
            invariant
                self.inv(),
                self.key_set() == s0.key_set().remove(k),
            decreases self.height,
        {
            let ghost prev = *self;
            proof {
                let ordn = self.order@;
                assert(self.level_ok(ordn, self.height as int));
                assert(self.link_ok(ordn, 0, self.height as int));
                assert forall|p: int| 0 <= p < ordn.len() implies self.lvl(#[trigger] ordn[p]) <= self.height by {
                    assert(self.node_ok(ordn[p]));
                    assert(ordn.contains(ordn[p]));
                }
            }
            self.height = self.height - 1;
            proof {
                let ordn = self.order@;
                assert forall|r2: int| 0 <= r2 < 33 implies #[trigger] self.level_ok(ordn, r2) by {
                    assert(prev.level_ok(ordn, r2));
                    SkipListSSet::lemma_level_frame(&prev, self, ordn, r2);
                }
                assert forall|p: int| 0 <= p < ordn.len() implies #[trigger] self.node_ok(ordn[p]) by {
                    assert(prev.node_ok(ordn[p]));
                    assert(prev.lvl(ordn[p]) <= prev.height);
                }
                assert forall|p: int, q: int| 0 <= p < q < ordn.len() implies self.key_of(ordn[p]) < self.key_of(
                    ordn[q],
                ) by {
                    assert(prev.key_of(ordn[p]) < prev.key_of(ordn[q]));
                }
                assert(self.key_set() =~= prev.key_set());
            }
        }
        true
    }
}

} // verus!
