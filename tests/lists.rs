use ordered_collections::dllist::DLList;
use ordered_collections::interface::{List, Queue, Stack};
use ordered_collections::skiplist_list::SkipListList;
use ordered_collections::sllist::SLList;

// ---- DLList ----

#[test]
fn test_get_none() {
    let mut list = DLList::new();

    let nil = list.get(0);
    assert_eq!(nil, None);

    list.add(0, 'a');
    assert_eq!(list.get(1), None);
    assert_eq!(list.get(2), None);
}

#[test]
fn test_abc() {
    let mut list = DLList::new();
    list.add(0, 'a');
    list.add(1, 'b');
    list.add(2, 'c');
    // a -> b -> c
    let a = list.get(0);
    let b = list.get(1);
    let c = list.get(2);
    assert_eq!(a, Some(&'a'));
    assert_eq!(b, Some(&'b'));
    assert_eq!(c, Some(&'c'));
}

#[test]
fn test_cba() {
    let mut list = DLList::new();
    list.add(0, 'a');
    list.add(0, 'b');
    list.add(0, 'c');
    // c -> b -> a
    let c = list.get(0);
    let b = list.get(1);
    let a = list.get(2);
    assert_eq!(c, Some(&'c'));
    assert_eq!(b, Some(&'b'));
    assert_eq!(a, Some(&'a'));
}

#[test]
fn test_set_get() {
    let mut list = DLList::new();
    list.add(0, 'a');
    list.add(1, 'b');
    list.add(2, 'c');

    // a -> b -> c
    let old = list.set(0, 'x');
    assert_eq!(old, 'a');
    assert_eq!(list.get(0), Some(&'x'));

    // x -> b -> c
    let old = list.set(2, 'z');
    assert_eq!(old, 'c');
    assert_eq!(list.get(2), Some(&'z'));
}

#[test]
fn test_add_remove() {
    let mut list = DLList::new();
    list.add(0, 'a');
    list.add(1, 'b');
    list.add(2, 'c');

    // a -> b -> c
    let b = list.remove(1);
    assert_eq!(b, 'b');

    // a -> c
    let c = list.remove(1);
    assert_eq!(c, 'c');

    // a
    let a = list.remove(0);
    assert_eq!(a, 'a');

    assert_eq!(list.size(), 0);
}

// ---- SkipListList ----

#[test]
fn lib_test_get_none() {
    let mut list = SkipListList::new();

    let nil = list.get(0);
    assert_eq!(nil, None);

    list.add(0, 'a');
    assert_eq!(list.get(1), None);
    assert_eq!(list.get(2), None);
}

#[test]
fn lib_test_set_get() {
    let mut list = SkipListList::new();
    list.add(0, 'a');
    list.add(1, 'b');
    list.add(2, 'c');

    // a b c
    let old = list.set(0, 'x');
    assert_eq!(old, 'a');
    assert_eq!(list.get(0), Some(&'x'));

    // x b c
    let old = list.set(2, 'z');
    assert_eq!(old, 'c');
    assert_eq!(list.get(2), Some(&'z'));
}

#[test]
fn lib_test_add_remove() {
    let mut list = SkipListList::new();
    list.add(0, 'a');
    list.add(1, 'b');
    list.add(2, 'c');

    // a b c
    let b = list.remove(1);
    assert_eq!(b, 'b');

    // a c
    let c = list.remove(1);
    assert_eq!(c, 'c');

    // a
    let a = list.remove(0);
    assert_eq!(a, 'a');

    assert_eq!(list.size(), 0);
}

#[test]
fn positional_insert_in_the_middle() {
    let mut list = SkipListList::new();
    for (i, x) in [10, 20, 30].into_iter().enumerate() {
        list.add(i, x);
    }
    list.add(1, 15);
    assert_eq!(list.size(), 4);
    assert_eq!(list.get(1), Some(&15));
    assert_eq!(list.get(2), Some(&20));
    assert_eq!(list.remove(3), 30);
    assert_eq!(list.get(3), None);
}

// ---- SLList ----

#[test]
fn test_pop() {
    let mut stack = SLList::<()>::new();
    let nil = stack.pop();
    assert_eq!(nil, None);
}

#[test]
fn test_push_3_pop_4() {
    let mut stack = SLList::<char>::new();
    stack.push('a');
    stack.push('b');
    stack.push('c');
    let c = stack.pop();
    let b = stack.pop();
    let a = stack.pop();
    let nil = stack.pop();
    assert_eq!(c, Some('c'));
    assert_eq!(b, Some('b'));
    assert_eq!(a, Some('a'));
    assert_eq!(nil, None);
}

#[test]
fn test_push_2_pop_1_push_1_pop_1() {
    let mut stack = SLList::<char>::new();
    stack.push('a');
    stack.push('b');
    let b = stack.pop();
    assert_eq!(b, Some('b'));
    stack.push('x');
    let x = stack.pop();
    assert_eq!(x, Some('x'));
}

#[test]
fn lib_test_remove() {
    let mut queue = SLList::<()>::new();
    let nil = queue.remove();
    assert_eq!(nil, None);
}

#[test]
fn test_add_3_remove_4() {
    let mut queue = SLList::<char>::new();
    queue.add('a');
    queue.add('b');
    queue.add('c');
    let a = queue.remove();
    let b = queue.remove();
    let c = queue.remove();
    let nil = queue.remove();
    assert_eq!(a, Some('a'));
    assert_eq!(b, Some('b'));
    assert_eq!(c, Some('c'));
    assert_eq!(nil, None);
}

#[test]
fn test_add_2_remove_1_add_1_remove_1() {
    let mut queue = SLList::<char>::new();
    queue.add('a');
    queue.add('b');
    let a = queue.remove();
    assert_eq!(a, Some('a'));
    queue.add('x');
    let b = queue.remove();
    assert_eq!(b, Some('b'));
}
