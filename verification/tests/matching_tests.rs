use orderbook::book::OrderBook;
use orderbook::types::{Order, OrderStatus, Side};

#[test]
fn ask_rests_in_empty_book() {
    let mut book = OrderBook::new("AAPL".to_string());
    let r = book.add_limit_order(Side::Ask, 100, 10).unwrap();
    assert_eq!(r.status, OrderStatus::Created);
    assert_eq!(r.remaining_qty, 10);
    assert!(r.filled_orders.is_empty());
    assert_eq!(book.best_ask_price(), 100);
    assert_eq!(book.best_bid_price(), u64::MIN);
    assert_eq!(book.total_qty_at(Side::Ask, 100), Ok(10));
}

#[test]
fn bid_fills_against_resting_ask() {
    let mut book = OrderBook::new("AAPL".to_string());
    book.add_limit_order(Side::Ask, 100, 10).unwrap();
    let r = book.add_limit_order(Side::Bid, 100, 4).unwrap();
    assert_eq!(r.status, OrderStatus::Filled);
    assert_eq!(r.filled_orders, vec![(100, 4)]);
    assert_eq!(r.remaining_qty, 0);
    let resting = book.orders_at(Side::Ask, 100);
    assert_eq!(resting.len(), 1);
    assert_eq!(resting[0].qty, 6);
    assert_eq!(book.total_qty_at(Side::Ask, 100), Ok(6));
    assert_eq!(book.best_ask_price(), 100);
    assert_eq!(book.best_bid_price(), u64::MIN);
}

#[test]
fn bid_partially_fills_then_rests() {
    let mut book = OrderBook::new("AAPL".to_string());
    book.add_limit_order(Side::Ask, 100, 10).unwrap();
    book.add_limit_order(Side::Bid, 100, 4).unwrap();
    let r = book.add_limit_order(Side::Bid, 101, 10).unwrap();
    assert_eq!(r.status, OrderStatus::PartiallyFilled);
    assert_eq!(r.filled_orders, vec![(100, 6)]);
    assert_eq!(r.remaining_qty, 4);
    let bids = book.orders_at(Side::Bid, 101);
    assert_eq!(bids.len(), 1);
    assert_eq!(bids[0].qty, 4);
    assert!(book.orders_at(Side::Ask, 100).is_empty());
    assert_eq!(book.total_qty_at(Side::Ask, 100), Ok(0));
    assert_eq!(book.best_bid_price(), 101);
    assert_eq!(book.best_ask_price(), u64::MAX);
}

#[test]
fn two_orders_at_one_price_fill_in_arrival_order() {
    let mut book = OrderBook::new("AAPL".to_string());
    let first = book.create_new_limit_order(Side::Ask, 50, 5);
    let second = book.create_new_limit_order(Side::Ask, 50, 3);
    let r = book.add_limit_order(Side::Bid, 50, 6).unwrap();
    assert_eq!(r.status, OrderStatus::Filled);
    assert_eq!(r.filled_orders, vec![(50, 6)]);
    assert_eq!(r.remaining_qty, 0);
    assert_eq!(book.orders_at(Side::Ask, 50), vec![Order { order_id: second, qty: 2 }]);
    assert!(!book.has_order(first));
    assert!(book.has_order(second));
}

#[test]
fn two_submitted_orders_at_one_price() {
    let mut book = OrderBook::new("AAPL".to_string());
    book.add_limit_order_with_id(Side::Ask, 50, 5, 1).unwrap();
    book.add_limit_order_with_id(Side::Ask, 50, 3, 2).unwrap();
    let r = book.add_limit_order_with_id(Side::Bid, 50, 6, 3).unwrap();
    assert_eq!(r.filled_orders, vec![(50, 6)]);
    assert_eq!(r.remaining_qty, 0);
    assert_eq!(book.orders_at(Side::Ask, 50), vec![Order { order_id: 2, qty: 2 }]);
    assert!(!book.has_order(3));
}
