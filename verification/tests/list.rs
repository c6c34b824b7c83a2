use ob::list::{Iter, List, Node, NodeRef};

fn values(list: &List<i32>) -> Vec<&i32> {
    let mut out = Vec::new();
    let mut it: Iter<'_, i32> = list.iter();
    while let Some(value) = it.next() {
        out.push(value);
    }
    out
}

fn drain(list: List<i32>) -> Vec<i32> {
    let mut out = Vec::new();
    let mut it = list.into_iter();
    while let Some(value) = it.next() {
        out.push(value);
    }
    out
}

#[test]
fn lib_test_new() {
    let list: List<i32> = List::new();
    assert!(list.is_empty());
    assert_eq!(list.len(), 0);
}

#[test]
fn lib_test_push_front() {
    let mut list = List::new();
    list.push_front(1);
    list.push_front(2);
    list.push_front(3);

    assert_eq!(list.len(), 3);
    assert_eq!(*list.front().unwrap(), 3);
}

#[test]
fn lib_test_push_back() {
    let mut list = List::new();
    list.push_back(1);
    list.push_back(2);
    list.push_back(3);

    assert_eq!(list.len(), 3);
    assert_eq!(*list.back().unwrap(), 3);
}

#[test]
fn lib_test_pop_front() {
    let mut list = List::new();
    list.push_back(1);
    list.push_back(2);
    list.push_back(3);

    assert_eq!(list.pop_front().map(|node| node.data), Some(1));
    assert_eq!(list.pop_front().map(|node| node.data), Some(2));
    assert_eq!(list.pop_front().map(|node| node.data), Some(3));
    assert_eq!(list.pop_front().map(|node| node.data), None);
    assert!(list.is_empty());
}

#[test]
fn lib_test_pop_back() {
    let mut list = List::new();
    list.push_back(1);
    list.push_back(2);
    list.push_back(3);

    assert_eq!(list.pop_back().map(|node| node.data), Some(3));
    assert_eq!(list.pop_back().map(|node| node.data), Some(2));
    assert_eq!(list.pop_back().map(|node| node.data), Some(1));
    assert_eq!(list.pop_back().map(|node| node.data), None);
    assert!(list.is_empty());
}

#[test]
fn lib_test_front_and_back() {
    let mut list = List::new();
    list.push_back(1);
    list.push_back(2);
    list.push_back(3);

    assert_eq!(*list.front().unwrap(), 1);
    assert_eq!(*list.back().unwrap(), 3);
    assert_eq!(list.len(), 3); // Should not consume
}

#[test]
fn lib_test_front_mut_and_back_mut() {
    let mut list = List::new();
    list.push_back(1);
    list.push_back(2);
    list.push_back(3);

    *list.front_mut().unwrap() = 10;
    *list.back_mut().unwrap() = 30;

    assert_eq!(*list.front().unwrap(), 10);
    assert_eq!(*list.back().unwrap(), 30);
}

#[test]
fn lib_test_clear() {
    let mut list = List::new();
    list.push_back(1);
    list.push_back(2);
    list.push_back(3);

    list.clear();
    assert!(list.is_empty());
    assert_eq!(list.len(), 0);
}

#[test]
fn lib_test_into_iter() {
    let mut list = List::new();
    list.push_back(1);
    list.push_back(2);
    list.push_back(3);

    let vec: Vec<i32> = drain(list);
    assert_eq!(vec, vec![1, 2, 3]);
}

#[test]
fn lib_test_mixed_operations() {
    let mut list = List::new();
    list.push_front(1);
    list.push_back(2);
    list.push_front(0);
    list.push_back(3);

    assert_eq!(list.len(), 4);
    assert_eq!(*list.front().unwrap(), 0);
    assert_eq!(*list.back().unwrap(), 3);

    assert_eq!(list.pop_front().map(|node| node.data), Some(0));
    assert_eq!(list.pop_back().map(|node| node.data), Some(3));
    assert_eq!(list.pop_front().map(|node| node.data), Some(1));
    assert_eq!(list.pop_back().map(|node| node.data), Some(2));
}

#[test]
fn lib_test_drop() {
    let mut list = List::new();
    for i in 0..100 {
        list.push_back(i);
    }
    // List should be properly cleaned up when it goes out of scope
}

#[test]
fn list_test_new() {
    let list: List<i32> = List::new();
    assert!(list.is_empty());
    assert_eq!(list.len(), 0);
}

#[test]
fn test_new() {
    let list: List<i32> = List::new();
    assert!(list.is_empty());
    assert_eq!(list.len(), 0);
}

#[test]
fn list_test_push_front() {
    let mut list = List::new();
    list.push_front(1);
    list.push_front(2);
    list.push_front(3);

    assert_eq!(list.len(), 3);
    assert_eq!(*list.front().unwrap(), 3);
}

#[test]
fn list_test_push_back() {
    let mut list = List::new();
    list.push_back(1);
    list.push_back(2);
    list.push_back(3);

    assert_eq!(list.len(), 3);
    assert_eq!(*list.back().unwrap(), 3);
    assert_eq!(*values(&list).last().unwrap(), &3);
}

#[test]
fn list_test_pop_front() {
    let mut list = List::new();
    list.push_back(1);
    list.push_back(2);
    list.push_back(3);

    let node1 = list.pop_front().unwrap();
    assert_eq!(node1.data, 1);

    let node2 = list.pop_front().unwrap();
    assert_eq!(node2.data, 2);

    let node3 = list.pop_front().unwrap();
    assert_eq!(node3.data, 3);

    assert_eq!(list.pop_front(), None);
    assert!(list.is_empty());
    assert_eq!(list.len(), 0);
}

#[test]
fn list_test_pop_back() {
    let mut list = List::new();
    list.push_back(1);
    list.push_back(2);
    list.push_back(3);

    let node1 = list.pop_back().unwrap();
    assert_eq!(node1.data, 3);

    let node2 = list.pop_back().unwrap();
    assert_eq!(node2.data, 2);

    let node3 = list.pop_back().unwrap();
    assert_eq!(node3.data, 1);

    assert_eq!(list.pop_back(), None);
    assert!(list.is_empty());
}

#[test]
fn list_test_front_and_back() {
    let mut list = List::new();
    list.push_back(1);
    list.push_back(2);
    list.push_back(3);

    assert_eq!(*list.front().unwrap(), 1);
    assert_eq!(*list.back().unwrap(), 3);
    assert_eq!(list.len(), 3); // Should not consume
}

#[test]
fn list_test_front_mut_and_back_mut() {
    let mut list = List::new();
    list.push_back(1);
    list.push_back(2);
    list.push_back(3);

    *list.front_mut().unwrap() = 10;
    *list.back_mut().unwrap() = 30;

    assert_eq!(*list.front().unwrap(), 10);
    assert_eq!(*list.back().unwrap(), 30);
}

#[test]
fn list_test_clear() {
    let mut list = List::new();
    list.push_back(1);
    list.push_back(2);
    list.push_back(3);

    list.clear();
    assert!(list.is_empty());
    assert_eq!(list.len(), 0);
}

#[test]
fn list_test_into_iter() {
    let mut list = List::new();
    list.push_back(1);
    list.push_back(2);
    list.push_back(3);

    let vec: Vec<i32> = drain(list);
    assert_eq!(vec, vec![1, 2, 3]);
}

#[test]
fn list_test_mixed_operations() {
    let mut list = List::new();
    list.push_front(1);
    list.push_back(2);
    list.push_front(0);
    list.push_back(3);

    assert_eq!(list.len(), 4);
    assert_eq!(*list.front().unwrap(), 0);
    assert_eq!(*list.back().unwrap(), 3);

    let node1 = list.pop_front().unwrap();
    assert_eq!(node1.data, 0);

    let node2 = list.pop_back().unwrap();
    assert_eq!(node2.data, 3);

    let node3 = list.pop_front().unwrap();
    assert_eq!(node3.data, 1);

    let node4 = list.pop_back().unwrap();
    assert_eq!(node4.data, 2);
}

#[test]
fn list_test_drop() {
    let mut list = List::new();
    for i in 0..100 {
        list.push_back(i);
    }
    // List should be properly cleaned up when it goes out of scope
}

#[test]
fn test_iter() {
    let mut list = List::new();
    list.push_back(1);
    list.push_back(2);
    list.push_back(3);

    let vec: Vec<&i32> = values(&list);
    assert_eq!(vec, vec![&1, &2, &3]);

    // List should still have all elements
    assert_eq!(list.len(), 3);
}

#[test]
fn list_test_iter_mut() {
    let mut list = List::new();
    list.push_back(1);
    list.push_back(2);
    list.push_back(3);

    let mut it = list.iter_mut();
    while let Some(item) = it.next() {
        *item *= 2;
    }

    let vec: Vec<&i32> = values(&list);
    assert_eq!(vec, vec![&2, &4, &6]);

    // List should still have all elements
    assert_eq!(list.len(), 3);
}

#[test]
fn test_remove_null_pointer() {
    let mut list = List::new();
    list.push_back(1);

    let result = list.remove(NodeRef::null());
    assert_eq!(result, None);
    assert_eq!(list.len(), 1);
}

#[test]
fn test_remove_head() {
    let mut list = List::new();
    let node1 = list.push_back(1);
    list.push_back(2);
    list.push_back(3);

    let removed = list.remove(node1);
    assert_eq!(removed, Some(1));
    assert_eq!(list.len(), 2);

    let vec: Vec<&i32> = values(&list);
    assert_eq!(vec, vec![&2, &3]);
}

#[test]
fn test_remove_tail() {
    let mut list = List::new();
    list.push_back(1);
    list.push_back(2);
    let node3 = list.push_back(3);

    let removed = list.remove(node3);
    assert_eq!(removed, Some(3));
    assert_eq!(list.len(), 2);

    let vec: Vec<&i32> = values(&list);
    assert_eq!(vec, vec![&1, &2]);
}

#[test]
fn test_remove_middle() {
    let mut list = List::new();
    list.push_back(1);
    let node2 = list.push_back(2);
    list.push_back(3);

    let removed = list.remove(node2);
    assert_eq!(removed, Some(2));
    assert_eq!(list.len(), 2);

    let vec: Vec<&i32> = values(&list);
    assert_eq!(vec, vec![&1, &3]);
}

#[test]
fn test_remove_only_node() {
    let mut list = List::new();
    let node1 = list.push_back(1);

    let removed = list.remove(node1);
    assert_eq!(removed, Some(1));
    assert_eq!(list.len(), 0);
    assert!(list.is_empty());

    let vec: Vec<&i32> = values(&list);
    assert_eq!(vec, Vec::<&i32>::new());
}

#[test]
fn test_remove_multiple_nodes() {
    let mut list = List::new();
    let node1 = list.push_back(1);
    let node2 = list.push_back(2);
    let node3 = list.push_back(3);
    let node4 = list.push_back(4);
    let node5 = list.push_back(5);

    // Remove middle node
    let removed = list.remove(node3);
    assert_eq!(removed, Some(3));
    assert_eq!(list.len(), 4);

    let vec: Vec<&i32> = values(&list);
    assert_eq!(vec, vec![&1, &2, &4, &5]);

    // Remove tail
    let removed = list.remove(node5);
    assert_eq!(removed, Some(5));
    assert_eq!(list.len(), 3);

    let vec: Vec<&i32> = values(&list);
    assert_eq!(vec, vec![&1, &2, &4]);

    // Remove head
    let removed = list.remove(node1);
    assert_eq!(removed, Some(1));
    assert_eq!(list.len(), 2);

    let vec: Vec<&i32> = values(&list);
    assert_eq!(vec, vec![&2, &4]);

    // Remove remaining nodes
    let removed = list.remove(node2);
    assert_eq!(removed, Some(2));
    assert_eq!(list.len(), 1);

    let removed = list.remove(node4);
    assert_eq!(removed, Some(4));
    assert_eq!(list.len(), 0);
    assert!(list.is_empty());
}

#[test]
fn handles_stay_valid_while_other_nodes_come_and_go() {
    let mut list = List::new();
    let a = list.push_back(10);
    let b = list.push_back(20);
    let c = list.push_back(30);
    assert_eq!(list.remove(b), Some(20));
    // The freed slot is used again; the old handles still name their nodes.
    let d = list.push_back(40);
    let e = list.push_front(5);
    assert_eq!(values(&list), vec![&5, &10, &30, &40]);
    assert_eq!(*list.get(a), 10);
    assert_eq!(*list.get(c), 30);
    assert_eq!(*list.get(d), 40);
    assert_eq!(*list.get(e), 5);
    assert_eq!(list.remove(a), Some(10));
    assert_eq!(list.remove(d), Some(40));
    assert_eq!(values(&list), vec![&5, &30]);
    assert_eq!(list.head(), e);
    assert_eq!(list.tail(), c);
}

#[test]
fn cursor_walks_both_ways() {
    let mut list = List::new();
    let a = list.push_back(1);
    let b = list.push_back(2);
    let c = list.push_back(3);
    assert_eq!(list.head(), a);
    assert_eq!(list.next(a), b);
    assert_eq!(list.next(b), c);
    assert!(list.next(c).is_null());
    assert_eq!(list.tail(), c);
    assert_eq!(list.prev(c), b);
    assert_eq!(list.prev(b), a);
    assert!(list.prev(a).is_null());
    *list.get_mut(b) = 20;
    assert_eq!(values(&list), vec![&1, &20, &3]);
}

#[test]
fn empty_list_has_null_ends() {
    let mut list: List<i32> = List::new();
    assert!(list.head().is_null());
    assert!(list.tail().is_null());
    assert_eq!(list.front(), None);
    assert_eq!(list.back(), None);
    assert!(list.front_mut().is_none());
    assert!(list.back_mut().is_none());
    assert!(NodeRef::null().is_null());
}

#[test]
fn new_node_is_linked_to_nothing() {
    let node = Node::new(7);
    assert_eq!(node.data, 7);
    assert!(node.prev.is_null());
    assert!(node.next.is_null());
}

#[test]
fn popped_node_has_cleared_links() {
    let mut list = List::new();
    list.push_back(1);
    list.push_back(2);
    let node = list.pop_front().unwrap();
    assert_eq!(node, Node::new(1));
    let node = list.pop_back().unwrap();
    assert_eq!(node, Node::new(2));
}

#[test]
fn list_is_usable_after_clear() {
    let mut list = List::new();
    list.push_back(1);
    list.push_back(2);
    list.clear();
    let a = list.push_back(3);
    list.push_back(4);
    assert_eq!(values(&list), vec![&3, &4]);
    assert_eq!(list.remove(a), Some(3));
    assert_eq!(values(&list), vec![&4]);
}
