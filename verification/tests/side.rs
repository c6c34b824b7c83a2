use ob::order::{BasicOrder, OrderInterface};
use ob::side::Side;

fn prices(side: &Side<BasicOrder>) -> Vec<u64> {
    let mut out = Vec::new();
    let mut it = side.iter();
    while let Some(order) = it.next() {
        out.push(order.price());
    }
    out
}

fn ids(side: &Side<BasicOrder>) -> Vec<String> {
    let mut out = Vec::new();
    let mut it = side.iter();
    while let Some(order) = it.next() {
        out.push(order.id().clone());
    }
    out
}

#[test]
fn side_test_new_side() {
    let side = Side::<BasicOrder>::new(true);
    assert!(side.is_empty());
    assert_eq!(side.height(), 0);
}

#[test]
fn side_test_insert_order() {
    let mut side = Side::<BasicOrder>::new(true);
    let order = BasicOrder::new("1", true, 100, 50);
    let _node_ptr = side.insert_order(order);

    assert!(!side.is_empty());
    assert_eq!(side.height(), 1);
}

#[test]
fn side_test_insert_multiple_orders_same_price() {
    let mut side = Side::<BasicOrder>::new(true);
    side.insert_order(BasicOrder::new("1", true, 100, 50));
    side.insert_order(BasicOrder::new("2", true, 100, 30));

    assert_eq!(side.height(), 1);
}

#[test]
fn side_test_insert_orders_different_prices() {
    let mut side = Side::<BasicOrder>::new(true);
    side.insert_order(BasicOrder::new("1", true, 100, 50));
    side.insert_order(BasicOrder::new("2", true, 200, 30));
    side.insert_order(BasicOrder::new("3", true, 150, 20));

    assert_eq!(side.height(), 3);
}

#[test]
fn side_test_remove_order() {
    let mut side = Side::<BasicOrder>::new(true);
    let node_ptr = side.insert_order(BasicOrder::new("1", true, 100, 50));
    side.insert_order(BasicOrder::new("2", true, 100, 30));

    side.remove_order(node_ptr);
    assert_eq!(side.height(), 1);
}

#[test]
fn side_test_remove_order_single_order() {
    let mut side = Side::<BasicOrder>::new(true);
    let node_ptr = side.insert_order(BasicOrder::new("1", true, 100, 50));

    side.remove_order(node_ptr);
    let order_count: usize = prices(&side).len();
    assert_eq!(order_count, 0);
}

#[test]
fn side_test_iter_bids() {
    let mut side = Side::<BasicOrder>::new(true);
    side.insert_order(BasicOrder::new("1", true, 100, 50));
    side.insert_order(BasicOrder::new("2", true, 300, 30));
    side.insert_order(BasicOrder::new("3", true, 200, 20));

    // For bids, should iterate from highest price to lowest
    let prices: Vec<u64> = prices(&side);
    assert_eq!(prices, vec![300, 200, 100]);
}

#[test]
fn side_test_iter_asks() {
    let mut side = Side::<BasicOrder>::new(false);
    side.insert_order(BasicOrder::new("1", false, 100, 50));
    side.insert_order(BasicOrder::new("2", false, 300, 30));
    side.insert_order(BasicOrder::new("3", false, 200, 20));

    // For asks, should iterate from lowest price to highest
    let prices: Vec<u64> = prices(&side);
    assert_eq!(prices, vec![100, 200, 300]);
}

#[test]
fn side_test_iter_mut() {
    let mut side = Side::<BasicOrder>::new(true);
    side.insert_order(BasicOrder::new("1", true, 100, 50));
    side.insert_order(BasicOrder::new("2", true, 200, 30));

    // Modify orders through mutable iterator
    let mut it = side.iter_mut();
    while let Some(order) = it.next() {
        // Can't directly modify BasicOrder fields, but we can test the iterator works
        let _ = order.price();
    }

    // Verify orders are still there
    assert_eq!(side.height(), 2);
}

#[test]
fn side_iter_mut_visits_orders_in_priority_order() {
    let mut side = Side::<BasicOrder>::new(false);
    side.insert_order(BasicOrder::new("a", false, 200, 1));
    side.insert_order(BasicOrder::new("b", false, 100, 2));
    side.insert_order(BasicOrder::new("c", false, 200, 3));
    side.insert_order(BasicOrder::new("d", false, 150, 4));
    let mut seen = Vec::new();
    let mut it = side.iter_mut();
    while let Some(order) = it.next() {
        seen.push((order.id().clone(), order.remaining()));
    }
    assert_eq!(
        seen,
        vec![
            ("b".to_string(), 2),
            ("d".to_string(), 4),
            ("a".to_string(), 1),
            ("c".to_string(), 3)
        ]
    );
    assert_eq!(ids(&side), vec!["b", "d", "a", "c"]);
    assert_eq!(side.total_quantity(), 10);

    let mut empty = Side::<BasicOrder>::new(true);
    let mut it = empty.iter_mut();
    assert!(it.next().is_none());
    assert!(it.next().is_none());
}

#[test]
fn side_levels_can_be_read_one_by_one() {
    let mut side = Side::<BasicOrder>::new(true);
    side.insert_order(BasicOrder::new("a", true, 100, 50));
    side.insert_order(BasicOrder::new("b", true, 120, 30));
    side.insert_order(BasicOrder::new("c", true, 100, 20));
    assert_eq!(side.height(), 2);
    assert_eq!(side.level_price(0), 120);
    assert_eq!(side.level_quantity(0), 30);
    assert_eq!(side.level_order_count(0), 1);
    assert_eq!(side.level_price(1), 100);
    assert_eq!(side.level_quantity(1), 70);
    assert_eq!(side.level_order_count(1), 2);
}

#[test]
fn side_test_height() {
    let mut side = Side::<BasicOrder>::new(true);
    assert_eq!(side.height(), 0);

    side.insert_order(BasicOrder::new("1", true, 100, 50));
    assert_eq!(side.height(), 1);

    side.insert_order(BasicOrder::new("2", true, 200, 30));
    assert_eq!(side.height(), 2);

    side.insert_order(BasicOrder::new("3", true, 100, 20));
    assert_eq!(side.height(), 2); // Same price, no new level
}

#[test]
fn side_orders_at_one_price_keep_arrival_order() {
    let mut side = Side::<BasicOrder>::new(false);
    side.insert_order(BasicOrder::new("a", false, 200, 1));
    side.insert_order(BasicOrder::new("b", false, 100, 1));
    side.insert_order(BasicOrder::new("c", false, 200, 1));
    side.insert_order(BasicOrder::new("d", false, 100, 1));
    side.insert_order(BasicOrder::new("e", false, 150, 1));
    assert_eq!(ids(&side), vec!["b", "d", "e", "a", "c"]);
    assert_eq!(side.height(), 3);
    assert_eq!(side.total_quantity(), 5);

    let mut bids = Side::<BasicOrder>::new(true);
    bids.insert_order(BasicOrder::new("a", true, 200, 1));
    bids.insert_order(BasicOrder::new("b", true, 100, 1));
    bids.insert_order(BasicOrder::new("c", true, 200, 1));
    bids.insert_order(BasicOrder::new("d", true, 100, 1));
    bids.insert_order(BasicOrder::new("e", true, 150, 1));
    assert_eq!(ids(&bids), vec!["a", "c", "e", "b", "d"]);
}

#[test]
fn side_fill_by_handle() {
    let mut side = Side::<BasicOrder>::new(false);
    let a = side.insert_order(BasicOrder::new("a", false, 100, 50));
    let b = side.insert_order(BasicOrder::new("b", false, 100, 30));
    let c = side.insert_order(BasicOrder::new("c", false, 110, 20));
    assert_eq!(side.total_quantity(), 100);

    // A partial fill leaves the order where it is.
    assert!(!side.fill_order(b, 10));
    assert_eq!(side.get(b).remaining(), 20);
    assert_eq!(side.total_quantity(), 90);
    assert_eq!(ids(&side), vec!["a", "b", "c"]);

    // A complete fill removes the order; its level stays while it holds another.
    assert!(side.fill_order(a, 50));
    assert_eq!(side.height(), 2);
    assert_eq!(ids(&side), vec!["b", "c"]);
    assert_eq!(side.total_quantity(), 40);

    // The last order of a level takes the level with it.
    assert!(side.fill_order(b, 20));
    assert_eq!(side.height(), 1);
    assert_eq!(ids(&side), vec!["c"]);
    assert_eq!(side.get(c).remaining(), 20);
    assert!(side.fill_order(c, 20));
    assert!(side.is_empty());
    assert_eq!(side.height(), 0);
    assert_eq!(side.total_quantity(), 0);
}

#[test]
fn side_remove_by_handle_collects_empty_levels() {
    let mut side = Side::<BasicOrder>::new(true);
    let a = side.insert_order(BasicOrder::new("a", true, 100, 50));
    let b = side.insert_order(BasicOrder::new("b", true, 120, 30));
    let c = side.insert_order(BasicOrder::new("c", true, 110, 20));
    assert_eq!(ids(&side), vec!["b", "c", "a"]);
    side.remove_order(c);
    assert_eq!(side.height(), 2);
    assert_eq!(ids(&side), vec!["b", "a"]);
    assert_eq!(side.total_quantity(), 80);
    side.remove_order(b);
    side.remove_order(a);
    assert!(side.is_empty());
    assert_eq!(side.total_quantity(), 0);
}

#[test]
fn side_handle_names_side_and_price() {
    let mut bids = Side::<BasicOrder>::new(true);
    let mut asks = Side::<BasicOrder>::new(false);
    let a = bids.insert_order(BasicOrder::new("a", true, 100, 50));
    let b = asks.insert_order(BasicOrder::new("b", false, 105, 50));
    assert!(a.is_bid());
    assert!(!b.is_bid());
    assert_eq!(a.price(), 100);
    assert_eq!(b.price(), 105);
    assert!(bids.is_bid());
    assert!(!asks.is_bid());
}

#[test]
fn side_many_levels_stay_sorted() {
    let mut side = Side::<BasicOrder>::new(false);
    let mut handles = Vec::new();
    for i in 0..50u64 {
        let price = (i * 37) % 50 + 1000;
        handles.push(side.insert_order(BasicOrder::new(&format!("o{}", i), false, price, 1)));
    }
    let seen = prices(&side);
    assert_eq!(seen.len(), 50);
    for w in seen.windows(2) {
        assert!(w[0] < w[1]);
    }
    assert_eq!(side.height(), 50);
    for (i, h) in handles.iter().enumerate() {
        if i % 2 == 0 {
            side.remove_order(*h);
        }
    }
    let seen = prices(&side);
    assert_eq!(seen.len(), 25);
    for w in seen.windows(2) {
        assert!(w[0] < w[1]);
    }
    assert_eq!(side.total_quantity(), 25);
}
