use orderbook::queue::match_at_price_level;
use orderbook::types::{BookError, FillResult, Order, OrderStatus, Side};
use std::collections::{HashMap, VecDeque};

fn level(orders: &[(u128, u64)]) -> (VecDeque<Order>, HashMap<u128, (Side, usize)>) {
    let mut q = VecDeque::new();
    let mut loc = HashMap::new();
    for (id, qty) in orders {
        q.push_back(Order { order_id: *id, qty: *qty });
        loc.insert(*id, (Side::Ask, 0));
    }
    (q, loc)
}

#[test]
fn level_is_consumed_from_the_front() {
    let (mut q, mut loc) = level(&[(1, 5), (2, 3), (3, 4)]);
    let mut incoming = 6;
    let done = match_at_price_level(&mut q, &mut incoming, &mut loc);
    assert_eq!(done, 6);
    assert_eq!(incoming, 0);
    assert_eq!(
        q,
        VecDeque::from(vec![Order { order_id: 2, qty: 2 }, Order { order_id: 3, qty: 4 }])
    );
    assert!(!loc.contains_key(&1));
    assert!(loc.contains_key(&2));
    assert!(loc.contains_key(&3));
}

#[test]
fn later_order_is_untouched_while_an_earlier_one_has_quantity() {
    let (mut q, mut loc) = level(&[(1, 5), (2, 3)]);
    let mut incoming = 4;
    let done = match_at_price_level(&mut q, &mut incoming, &mut loc);
    assert_eq!(done, 4);
    assert_eq!(
        q,
        VecDeque::from(vec![Order { order_id: 1, qty: 1 }, Order { order_id: 2, qty: 3 }])
    );
    assert_eq!(loc.len(), 2);
}

#[test]
fn level_smaller_than_incoming_is_emptied() {
    let (mut q, mut loc) = level(&[(1, 5), (2, 3)]);
    let mut incoming = 10;
    let done = match_at_price_level(&mut q, &mut incoming, &mut loc);
    assert_eq!(done, 8);
    assert_eq!(incoming, 2);
    assert!(q.is_empty());
    assert!(loc.is_empty());
}

#[test]
fn exact_fill_removes_the_order() {
    let (mut q, mut loc) = level(&[(1, 5), (2, 3)]);
    let mut incoming = 5;
    let done = match_at_price_level(&mut q, &mut incoming, &mut loc);
    assert_eq!(done, 5);
    assert_eq!(incoming, 0);
    assert_eq!(q, VecDeque::from(vec![Order { order_id: 2, qty: 3 }]));
    assert!(!loc.contains_key(&1));
}

#[test]
fn nothing_incoming_changes_nothing() {
    let (mut q, mut loc) = level(&[(1, 5)]);
    let mut incoming = 0;
    let done = match_at_price_level(&mut q, &mut incoming, &mut loc);
    assert_eq!(done, 0);
    assert_eq!(q, VecDeque::from(vec![Order { order_id: 1, qty: 5 }]));
    assert_eq!(loc.len(), 1);
}

#[test]
fn empty_level_fills_nothing() {
    let (mut q, mut loc) = level(&[]);
    let mut incoming = 9;
    let done = match_at_price_level(&mut q, &mut incoming, &mut loc);
    assert_eq!(done, 0);
    assert_eq!(incoming, 9);
    assert!(q.is_empty());
}

#[test]
fn sides_are_opposite_to_each_other() {
    assert_eq!(Side::Ask.opposite(), Side::Bid);
    assert_eq!(Side::Bid.opposite(), Side::Ask);
}

#[test]
fn crossing_depends_on_the_side() {
    assert!(Side::Bid.crosses(100, 100));
    assert!(Side::Bid.crosses(101, 100));
    assert!(!Side::Bid.crosses(99, 100));
    assert!(Side::Ask.crosses(100, 100));
    assert!(Side::Ask.crosses(99, 100));
    assert!(!Side::Ask.crosses(101, 100));
}

#[test]
fn fresh_result_records_nothing() {
    let r = FillResult::new();
    assert!(r.filled_orders.is_empty());
    assert_eq!(r.remaining_qty, u64::MAX);
    assert_eq!(r.status, OrderStatus::Uninitialized);
}

#[test]
fn average_price_is_paid_over_quantity() {
    let mut r = FillResult::new();
    r.filled_orders.push((100, 4));
    r.filled_orders.push((101, 6));
    assert_eq!(r.avg_fill_price(), Ok((1006, 10)));
    let (paid, qty) = r.avg_fill_price().unwrap();
    assert_eq!(paid as f64 / qty as f64, 100.6);
}

#[test]
fn average_price_of_no_fill_is_undefined() {
    let r = FillResult::new();
    assert_eq!(r.avg_fill_price(), Err(BookError::UndefinedAverage));
}

#[test]
fn average_price_at_the_largest_values() {
    let mut r = FillResult::new();
    r.filled_orders.push((u64::MAX, u64::MAX));
    assert_eq!(
        r.avg_fill_price(),
        Ok(((u64::MAX as u128) * (u64::MAX as u128), u64::MAX))
    );
}
