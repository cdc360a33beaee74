use std::collections::BTreeSet;

use ordered_collections::binary_trie::BinaryTrie;
use ordered_collections::interface::SSet;
use ordered_collections::scapegoat_tree::{deeper_than_log32_exec, ScapegoatTree};
use ordered_collections::skiplist_sset::SkipListSSet;
use ordered_collections::treap::Treap;
use rand::rngs::SmallRng;
use rand::{Rng, SeedableRng};

// ---- treap ----

#[test]
fn remove_from_empty_set() {
    let mut treap = Treap::new();
    let removed = treap.remove(&42);
    assert!(!removed);
}

#[test]
fn lib_add_same() {
    let mut treap = Treap::new();
    let added = treap.add(42);
    assert!(added);
    let added = treap.add(42);
    assert!(!added);
}

#[test]
fn lib_add_remove() {
    let mut treap = Treap::new();
    treap.add(42);
    assert_eq!(treap.size(), 1);
    let removed = treap.remove(&42);
    assert!(removed);
    assert_eq!(treap.size(), 0);
}

#[test]
fn lib_find_less_equal_greater() {
    let mut treap = Treap::new();
    treap.add(42);
    assert_eq!(treap.find(&41), Some(&42));
    assert_eq!(treap.find(&42), Some(&42));
    assert_eq!(treap.find(&43), None);
}

#[test]
fn lib_test_random() {
    let mut rng = SmallRng::seed_from_u64(0);
    let mut treap = Treap::new();
    let mut btree_set = BTreeSet::new();

    for _ in 0..100 {
        let x = rng.gen_range(0..100_u8);
        let added_1 = treap.add(x);
        let added_2 = btree_set.insert(x);
        assert_eq!(added_1, added_2);
    }

    for _ in 0..100 {
        let x = rng.gen_range(0..100_u8);
        let y1 = treap.find(&x);
        let y2 = btree_set.range(x..).next();
        assert_eq!(y1, y2);
    }

    for _ in 0..100 {
        let x = rng.gen_range(0..100_u8);
        let removed_1 = treap.remove(&x);
        let removed_2 = btree_set.remove(&x);
        assert_eq!(removed_1, removed_2);
    }
}

// ---- scapegoat tree ----

#[test]
fn add_same() {
    let mut scapegoat_tree = ScapegoatTree::new();
    let added = scapegoat_tree.add('a');
    assert!(added);
    let added = scapegoat_tree.add('a');
    assert!(!added);
}

#[test]
fn add_remove() {
    let mut scapegoat_tree = ScapegoatTree::new();
    scapegoat_tree.add('a');
    assert_eq!(scapegoat_tree.size(), 1);
    let removed = scapegoat_tree.remove(&'a');
    assert!(removed);
    assert_eq!(scapegoat_tree.size(), 0);
    let removed = scapegoat_tree.remove(&'a');
    assert!(!removed);
}

#[test]
fn find_less_equal_greater() {
    let mut scapegoat_tree = ScapegoatTree::new();
    scapegoat_tree.add('b');
    assert_eq!(scapegoat_tree.find(&'a'), Some(&'b'));
    assert_eq!(scapegoat_tree.find(&'b'), Some(&'b'));
    assert_eq!(scapegoat_tree.find(&'c'), None);
}

#[test]
fn test_large() {
    let mut rng = SmallRng::seed_from_u64(0);
    let mut scapegoat_tree = ScapegoatTree::new();
    let mut btree = BTreeSet::new();
    let n = 100;
    for x in 0..n {
        let added_1 = scapegoat_tree.add(x);
        let added_2 = btree.insert(x);
        assert_eq!(added_1, added_2);
    }
    for _ in 0..n {
        let x = rng.gen_range(0..n);
        let y1 = scapegoat_tree.find(&x);
        let y2 = btree.range(x..).next();
        assert_eq!(y1, y2);
    }
    for _ in 0..n {
        let x = rng.gen_range(0..n);
        let removed_1 = scapegoat_tree.remove(&x);
        let removed_2 = btree.remove(&x);
        assert_eq!(removed_1, removed_2);
    }
}

#[test]
fn depth_threshold_is_log_three_halves() {
    // (3/2)^d > q: 1.5^1 = 1.5, 1.5^2 = 2.25, 1.5^3 = 3.375
    assert!(!deeper_than_log32_exec(0, 1));
    assert!(deeper_than_log32_exec(1, 1));
    assert!(!deeper_than_log32_exec(1, 2));
    assert!(deeper_than_log32_exec(2, 2));
    assert!(!deeper_than_log32_exec(2, 3));
    assert!(deeper_than_log32_exec(3, 3));
    assert!(!deeper_than_log32_exec(3, 4));
    // 1.5^17 = 985.26, 1.5^18 = 1477.89
    assert!(!deeper_than_log32_exec(17, 1000));
    assert!(deeper_than_log32_exec(18, 1000));
    // 1.5^109 < 2^64 - 1 < 1.5^110
    assert!(!deeper_than_log32_exec(109, u64::MAX as usize));
    assert!(deeper_than_log32_exec(110, u64::MAX as usize));
    assert!(deeper_than_log32_exec(500, u64::MAX as usize));
}

#[test]
fn scapegoat_sorted_inserts_stay_correct() {
    let mut tree = ScapegoatTree::new();
    for x in 0..2000u32 {
        assert!(tree.add(x));
    }
    assert_eq!(tree.size(), 2000);
    for x in (0..2000u32).step_by(2) {
        assert!(tree.remove(&x));
    }
    assert_eq!(tree.size(), 1000);
    assert_eq!(tree.find(&0), Some(&1));
    assert_eq!(tree.find(&1998), Some(&1999));
    assert_eq!(tree.find(&2000), None);
}

// ---- skip list ----

#[test]
fn test_add_twice() {
    let mut set = SkipListSSet::new();
    let added = set.add('a');
    assert!(added);
    assert_eq!(set.size(), 1);
    let added = set.add('a');
    assert!(!added);
    assert_eq!(set.size(), 1);
}

#[test]
fn test_remove_twice() {
    let mut set = SkipListSSet::new();
    set.add('a');
    let removed = set.remove(&'a');
    assert!(removed);
    let removed = set.remove(&'a');
    assert!(!removed);
}

#[test]
fn test_find() {
    let mut set = SkipListSSet::new();
    assert_eq!(set.find(&'a'), None);
    set.add('a');
    set.add('p');
    set.add('b');
    set.add('q');
    set.add('j');
    set.add('i');
    // a b i j p q
    assert_eq!(set.find(&'a'), Some(&'a'));
    assert_eq!(set.find(&'b'), Some(&'b'));
    assert_eq!(set.find(&'c'), Some(&'i'));
    assert_eq!(set.find(&'i'), Some(&'i'));
    assert_eq!(set.find(&'j'), Some(&'j'));
    assert_eq!(set.find(&'k'), Some(&'p'));
    assert_eq!(set.find(&'p'), Some(&'p'));
    assert_eq!(set.find(&'q'), Some(&'q'));
    assert_eq!(set.find(&'r'), None);
}

// ---- binary trie ----

#[test]
fn lib_test_find() {
    let mut binary_trie = BinaryTrie::<u8>::new();
    assert_eq!(binary_trie.find(&0), None);
    binary_trie.add(0);
    binary_trie.add(10);
    binary_trie.add(100);
    assert_eq!(binary_trie.find(&0), Some(&0));
    assert_eq!(binary_trie.find(&1), Some(&10));
    assert_eq!(binary_trie.find(&10), Some(&10));
    assert_eq!(binary_trie.find(&11), Some(&100));
    assert_eq!(binary_trie.find(&101), None);
}

#[test]
fn test_remove() {
    let mut binary_trie = BinaryTrie::<u8>::new();
    binary_trie.add(42);
    let removed = binary_trie.remove(&42);
    assert!(removed);
    let removed = binary_trie.remove(&42);
    assert!(!removed);
}

#[test]
fn test_random() {
    let mut rng = SmallRng::seed_from_u64(0);
    let mut binary_trie = BinaryTrie::<u32>::new();
    let mut btree_set = BTreeSet::new();
    let n = 1000;
    for _ in 0..n {
        let x = rng.gen_range(0..n);
        assert_eq!(binary_trie.add(x), btree_set.insert(x));
    }
    for _ in 0..n {
        let x = rng.gen_range(0..n);
        assert_eq!(binary_trie.find(&x), btree_set.range(&x..).next());
    }
    for _ in 0..n {
        let x = rng.gen_range(0..n);
        assert_eq!(binary_trie.remove(&x), btree_set.remove(&x));
    }
}

#[test]
fn trie_extreme_keys() {
    let mut trie = BinaryTrie::<u64>::new();
    assert!(trie.add(u64::MAX));
    assert!(trie.add(0));
    assert!(trie.add(1 << 63));
    assert_eq!(trie.find(&1), Some(&(1 << 63)));
    assert_eq!(trie.find(&((1 << 63) + 1)), Some(&u64::MAX));
    assert!(trie.remove(&(1 << 63)));
    assert_eq!(trie.find(&1), Some(&u64::MAX));
    assert_eq!(trie.size(), 2);
}

#[test]
fn trie_jumps_follow_removed_extremes() {
    let mut trie = BinaryTrie::<u64>::new();
    for k in [8u64, 9, 12, 40, 41, 47] {
        assert!(trie.add(k));
    }
    // 8 and 47 are the smallest and largest keys under one-sided nodes.
    assert_eq!(trie.find(&0), Some(&8));
    assert_eq!(trie.find(&13), Some(&40));
    assert!(trie.remove(&8));
    assert_eq!(trie.find(&0), Some(&9));
    assert!(trie.remove(&12));
    assert_eq!(trie.find(&10), Some(&40));
    assert!(trie.remove(&47));
    assert_eq!(trie.find(&42), None);
    assert_eq!(trie.find(&41), Some(&41));
    // Freed chain slots are reused.
    assert!(trie.add(12));
    assert!(trie.add(46));
    assert_eq!(trie.find(&10), Some(&12));
    assert_eq!(trie.find(&42), Some(&46));
    assert_eq!(trie.size(), 5);
    for k in [9u64, 12, 40, 41, 46] {
        assert!(trie.remove(&k));
    }
    assert_eq!(trie.size(), 0);
    assert_eq!(trie.find(&0), None);
    assert!(trie.add(3));
    assert_eq!(trie.find(&0), Some(&3));
}

#[test]
fn trie_bool_and_char_keys() {
    let mut bools = BinaryTrie::new();
    assert!(bools.add(true));
    assert_eq!(bools.find(&false), Some(&true));
    let mut chars = BinaryTrie::new();
    chars.add('q');
    chars.add('c');
    assert_eq!(chars.find(&'d'), Some(&'q'));
    assert_eq!(chars.find(&'r'), None);
}

// ---- the same scenario on every engine ----

fn scenario<S: SSet<u32>>(mut set: S) {
    assert!(set.add(10));
    assert!(set.add(20));
    assert!(set.add(5));
    assert_eq!(set.size(), 3);
    assert_eq!(set.find(&7), Some(&10));
    assert_eq!(set.find(&20), Some(&20));
    assert_eq!(set.find(&21), None);
    assert!(set.remove(&10));
    assert_eq!(set.find(&7), Some(&20));
    assert!(!set.remove(&10));
}

#[test]
fn scenario_treap() {
    scenario(Treap::new());
}

#[test]
fn scenario_scapegoat_tree() {
    scenario(ScapegoatTree::new());
}

#[test]
fn scenario_skip_list() {
    scenario(SkipListSSet::with_seed(7));
}

#[test]
fn scenario_binary_trie() {
    scenario(BinaryTrie::new());
}

// duplicate add is idempotent; remove then re-add restores the element
fn add_twice_and_readd<S: SSet<u32>>(mut set: S) {
    for x in [3, 9, 1, 7] {
        set.add(x);
    }
    assert!(set.add(4));
    let size = set.size();
    assert!(!set.add(4));
    assert_eq!(set.size(), size);
    assert!(set.remove(&9));
    assert!(set.add(9));
    assert_eq!(set.find(&9), Some(&9));
    assert_eq!(set.size(), size);
    // lower bound of an absent key is the next larger key
    assert_eq!(set.find(&5), Some(&7));
    assert_eq!(set.find(&10), None);
}

#[test]
fn add_twice_and_readd_all_engines() {
    add_twice_and_readd(Treap::new());
    add_twice_and_readd(ScapegoatTree::new());
    add_twice_and_readd(SkipListSSet::with_seed(1));
    add_twice_and_readd(BinaryTrie::new());
}

// randomized differential runs against std's ordered set
fn differential<S: SSet<u32>>(mut set: S, seed: u64) {
    let mut rng = SmallRng::seed_from_u64(seed);
    let mut reference = BTreeSet::new();
    for _ in 0..3000 {
        let x = rng.gen_range(0..500u32);
        match rng.gen_range(0..3) {
            0 => assert_eq!(set.add(x), reference.insert(x)),
            1 => assert_eq!(set.remove(&x), reference.remove(&x)),
            _ => assert_eq!(set.find(&x), reference.range(x..).next()),
        }
        assert_eq!(set.size(), reference.len());
    }
}

#[test]
fn differential_treap() {
    for seed in 0..4 {
        differential(Treap::with_seed(seed + 100), seed);
    }
}

#[test]
fn differential_scapegoat_tree() {
    for seed in 0..4 {
        differential(ScapegoatTree::new(), seed);
    }
}

#[test]
fn differential_skip_list() {
    for seed in 0..4 {
        differential(SkipListSSet::with_seed(seed + 100), seed);
    }
}

#[test]
fn differential_binary_trie() {
    for seed in 0..4 {
        differential(BinaryTrie::new(), seed);
    }
}
