//! Interchangeable sorted-set engines (treap, scapegoat tree, skip list,
//! binary trie) behind one contract, with the list, stack and queue
//! containers that sit beside them.

pub mod binary_trie;
pub mod bst;
pub mod dllist;
pub mod interface;
pub mod laws;
pub mod order;
pub mod random;
pub mod scapegoat_tree;
pub mod skiplist_list;
pub mod skiplist_sset;
pub mod sllist;
pub mod treap;
