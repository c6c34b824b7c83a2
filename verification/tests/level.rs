use ob::level::Level;
use ob::list::NodeRef;
use ob::order::{BasicOrder, OrderInterface};

fn ids(level: &Level<BasicOrder>) -> Vec<String> {
    let mut out = Vec::new();
    let mut it = level.iter();
    while let Some(order) = it.next() {
        out.push(order.id().clone());
    }
    out
}

#[test]
fn test_new_level() {
    let level = Level::<BasicOrder>::new(100);
    assert_eq!(level.price(), 100);
    assert_eq!(level.total_quantity(), 0);
    assert_eq!(level.order_count(), 0);
    assert!(level.is_empty());
}

#[test]
fn test_add_order() {
    let mut level = Level::<BasicOrder>::new(100);
    let order = BasicOrder::new("1", true, 100, 50);

    level.add_order(order);
    assert_eq!(level.total_quantity(), 50);
    assert_eq!(level.order_count(), 1);
    assert!(!level.is_empty());
}

#[test]
fn test_add_multiple_orders() {
    let mut level = Level::<BasicOrder>::new(100);
    level.add_order(BasicOrder::new("1", true, 100, 50));
    level.add_order(BasicOrder::new("2", true, 100, 30));
    level.add_order(BasicOrder::new("3", true, 100, 20));

    assert_eq!(level.total_quantity(), 100);
    assert_eq!(level.order_count(), 3);
}

#[test]
fn level_test_remove_order() {
    let mut level = Level::<BasicOrder>::new(100);
    level.add_order(BasicOrder::new("1", true, 100, 50));
    let node_ptr = level.add_order(BasicOrder::new("2", true, 100, 30));
    level.add_order(BasicOrder::new("3", true, 100, 20));

    level.remove_order(node_ptr);
    assert_eq!(level.total_quantity(), 70);
    assert_eq!(level.order_count(), 2);
}

#[test]
fn test_remove_nonexistent_order() {
    let mut level = Level::<BasicOrder>::new(100);
    level.add_order(BasicOrder::new("1", true, 50, 50));

    let null_ptr = NodeRef::null();
    level.remove_order(null_ptr);
    assert_eq!(level.total_quantity(), 50);
    assert_eq!(level.order_count(), 1);
}

#[test]
fn level_keeps_arrival_order() {
    let mut level = Level::<BasicOrder>::new(100);
    let a = level.add_order(BasicOrder::new("a", true, 100, 1));
    let b = level.add_order(BasicOrder::new("b", true, 100, 2));
    let c = level.add_order(BasicOrder::new("c", true, 100, 3));
    assert_eq!(ids(&level), vec!["a", "b", "c"]);
    assert_eq!(level.head(), a);
    assert_eq!(level.next(a), b);
    assert_eq!(level.next(b), c);
    assert!(level.next(c).is_null());
    assert_eq!(level.get(b).remaining(), 2);
}

#[test]
fn level_partial_fill_keeps_the_order() {
    let mut level = Level::<BasicOrder>::new(100);
    level.add_order(BasicOrder::new("a", true, 100, 50));
    let b = level.add_order(BasicOrder::new("b", true, 100, 30));
    assert!(!level.fill_order(b, 10));
    assert_eq!(level.total_quantity(), 70);
    assert_eq!(level.order_count(), 2);
    assert_eq!(level.get(b).remaining(), 20);
    assert_eq!(level.get(b).quantity(), 30);
    assert_eq!(ids(&level), vec!["a", "b"]);
}

#[test]
fn level_complete_fill_removes_the_order() {
    let mut level = Level::<BasicOrder>::new(100);
    let a = level.add_order(BasicOrder::new("a", true, 100, 50));
    level.add_order(BasicOrder::new("b", true, 100, 30));
    assert!(!level.fill_order(a, 20));
    assert!(level.fill_order(a, 30));
    assert_eq!(level.total_quantity(), 30);
    assert_eq!(level.order_count(), 1);
    assert_eq!(ids(&level), vec!["b"]);
}

#[test]
fn level_fill_of_nothing_changes_nothing() {
    let mut level = Level::<BasicOrder>::new(100);
    let a = level.add_order(BasicOrder::new("a", true, 100, 50));
    assert!(!level.fill_order(a, 0));
    assert_eq!(level.total_quantity(), 50);
    assert_eq!(level.get(a).remaining(), 50);
}

#[test]
fn level_is_empty_after_last_order_leaves() {
    let mut level = Level::<BasicOrder>::new(100);
    let a = level.add_order(BasicOrder::new("a", true, 100, 50));
    level.remove_order(a);
    assert!(level.is_empty());
    assert_eq!(level.total_quantity(), 0);
    assert!(level.head().is_null());
}

#[test]
fn basic_order_reports_what_it_was_made_with() {
    let mut order = BasicOrder::new("x7", false, 1234, 60);
    assert_eq!(order.id(), "x7");
    assert!(!order.is_buy());
    assert_eq!(order.price(), 1234);
    assert_eq!(order.quantity(), 60);
    assert_eq!(order.remaining(), 60);
    order.fill(25);
    assert_eq!(order.quantity(), 60);
    assert_eq!(order.remaining(), 35);
    order.fill(35);
    assert_eq!(order.remaining(), 0);
}

#[test]
fn level_iter_mut_visits_orders_oldest_first() {
    let mut level = Level::<BasicOrder>::new(100);
    level.add_order(BasicOrder::new("a", true, 100, 1));
    let b = level.add_order(BasicOrder::new("b", true, 100, 2));
    level.add_order(BasicOrder::new("c", true, 100, 3));
    let mut seen = Vec::new();
    let mut it = level.iter_mut();
    while let Some(order) = it.next() {
        seen.push(order.remaining());
    }
    assert_eq!(seen, vec![1, 2, 3]);
    assert_eq!(level.total_quantity(), 6);
    assert_eq!(level.get_mut(b).quantity(), 2);
    assert_eq!(ids(&level), vec!["a", "b", "c"]);
}
