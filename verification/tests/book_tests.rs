use orderbook::book::OrderBook;
use orderbook::types::{BookError, Order, OrderStatus, Side, TopOfBook};

fn filled(fills: &[(u64, u64)]) -> u64 {
    let mut sum = 0;
    for (_, q) in fills {
        sum += q;
    }
    sum
}

#[test]
fn new_book_has_no_prices() {
    let book = OrderBook::new("MSFT".to_string());
    assert_eq!(book.best_bid_price(), 0);
    assert_eq!(book.best_ask_price(), u64::MAX);
    assert_eq!(
        book.get_bbo(),
        TopOfBook {
            best_bid_price: 0,
            best_bid_qty: 0,
            best_ask_price: u64::MAX,
            best_ask_qty: 0,
            spread: None,
        }
    );
    assert_eq!(book.total_qty_at(Side::Bid, 10), Err(BookError::UnknownPriceLevel));
    assert!(book.orders_at(Side::Ask, 10).is_empty());
}

#[test]
fn zero_quantity_is_refused_and_changes_nothing() {
    let mut book = OrderBook::new("X".to_string());
    book.add_limit_order_with_id(Side::Ask, 100, 10, 7).unwrap();
    let r = book.add_limit_order(Side::Bid, 100, 0);
    assert_eq!(r.unwrap_err(), BookError::InvalidQuantity);
    let r = book.add_limit_order_with_id(Side::Bid, 100, 0, 9);
    assert_eq!(r.unwrap_err(), BookError::InvalidQuantity);
    assert_eq!(book.orders_at(Side::Ask, 100), vec![Order { order_id: 7, qty: 10 }]);
    assert_eq!(book.best_ask_price(), 100);
    assert_eq!(book.best_bid_price(), 0);
}

#[test]
fn order_that_crosses_nothing_rests_in_full() {
    let mut book = OrderBook::new("X".to_string());
    book.add_limit_order_with_id(Side::Ask, 105, 10, 1).unwrap();
    let r = book.add_limit_order_with_id(Side::Bid, 104, 8, 2).unwrap();
    assert_eq!(r.status, OrderStatus::Created);
    assert_eq!(r.remaining_qty, 8);
    assert!(r.filled_orders.is_empty());
    assert_eq!(book.orders_at(Side::Bid, 104), vec![Order { order_id: 2, qty: 8 }]);
    assert_eq!(book.orders_at(Side::Ask, 105), vec![Order { order_id: 1, qty: 10 }]);
    assert_eq!(book.best_bid_price(), 104);
    assert_eq!(book.best_ask_price(), 105);
}

#[test]
fn order_equal_to_crossing_liquidity_is_filled() {
    let mut book = OrderBook::new("X".to_string());
    book.add_limit_order_with_id(Side::Ask, 100, 4, 1).unwrap();
    book.add_limit_order_with_id(Side::Ask, 101, 6, 2).unwrap();
    book.add_limit_order_with_id(Side::Ask, 103, 5, 3).unwrap();
    let r = book.add_limit_order_with_id(Side::Bid, 102, 10, 4).unwrap();
    assert_eq!(r.status, OrderStatus::Filled);
    assert_eq!(r.remaining_qty, 0);
    assert_eq!(r.filled_orders, vec![(100, 4), (101, 6)]);
    assert!(!book.has_order(4));
    assert!(!book.has_order(1));
    assert!(!book.has_order(2));
    assert!(book.has_order(3));
    assert_eq!(book.best_ask_price(), 103);
    assert_eq!(book.best_bid_price(), 0);
}

#[test]
fn bid_walks_asks_from_the_lowest_price() {
    let mut book = OrderBook::new("X".to_string());
    book.add_limit_order_with_id(Side::Ask, 103, 5, 1).unwrap();
    book.add_limit_order_with_id(Side::Ask, 101, 5, 2).unwrap();
    book.add_limit_order_with_id(Side::Ask, 102, 5, 3).unwrap();
    let r = book.add_limit_order_with_id(Side::Bid, 103, 12, 4).unwrap();
    assert_eq!(r.filled_orders, vec![(101, 5), (102, 5), (103, 2)]);
    assert_eq!(r.remaining_qty, 0);
    assert_eq!(book.orders_at(Side::Ask, 103), vec![Order { order_id: 1, qty: 3 }]);
}

#[test]
fn ask_walks_bids_from_the_highest_price() {
    let mut book = OrderBook::new("X".to_string());
    book.add_limit_order_with_id(Side::Bid, 97, 5, 1).unwrap();
    book.add_limit_order_with_id(Side::Bid, 99, 5, 2).unwrap();
    book.add_limit_order_with_id(Side::Bid, 98, 5, 3).unwrap();
    let r = book.add_limit_order_with_id(Side::Ask, 98, 20, 4).unwrap();
    assert_eq!(r.status, OrderStatus::PartiallyFilled);
    assert_eq!(r.filled_orders, vec![(99, 5), (98, 5)]);
    assert_eq!(r.remaining_qty, 10);
    assert_eq!(book.orders_at(Side::Ask, 98), vec![Order { order_id: 4, qty: 10 }]);
    assert_eq!(book.orders_at(Side::Bid, 97), vec![Order { order_id: 1, qty: 5 }]);
    assert_eq!(book.best_bid_price(), 97);
    assert_eq!(book.best_ask_price(), 98);
}

#[test]
fn emptied_level_gives_no_fill_entry() {
    let mut book = OrderBook::new("X".to_string());
    book.add_limit_order_with_id(Side::Ask, 100, 5, 1).unwrap();
    book.add_limit_order_with_id(Side::Ask, 101, 5, 2).unwrap();
    book.cancel_order(1).unwrap();
    assert_eq!(book.total_qty_at(Side::Ask, 100), Ok(0));
    let r = book.add_limit_order_with_id(Side::Bid, 101, 3, 3).unwrap();
    assert_eq!(r.filled_orders, vec![(101, 3)]);
    assert_eq!(r.status, OrderStatus::Filled);
}

#[test]
fn residual_rests_at_its_own_limit_price() {
    let mut book = OrderBook::new("X".to_string());
    book.add_limit_order_with_id(Side::Ask, 100, 5, 1).unwrap();
    let r = book.add_limit_order_with_id(Side::Bid, 110, 8, 2).unwrap();
    assert_eq!(r.filled_orders, vec![(100, 5)]);
    assert_eq!(r.remaining_qty, 3);
    assert_eq!(book.orders_at(Side::Bid, 110), vec![Order { order_id: 2, qty: 3 }]);
    assert_eq!(book.total_qty_at(Side::Bid, 100), Err(BookError::UnknownPriceLevel));
}

#[test]
fn filled_and_remaining_add_up_to_submitted() {
    let mut book = OrderBook::new("X".to_string());
    let submissions: [(Side, u64, u64); 8] = [
        (Side::Ask, 100, 7),
        (Side::Ask, 101, 9),
        (Side::Bid, 99, 4),
        (Side::Bid, 101, 10),
        (Side::Ask, 98, 30),
        (Side::Bid, 100, 2),
        (Side::Bid, 98, 1),
        (Side::Ask, 1, 100),
    ];
    for (side, price, qty) in submissions {
        let r = book.add_limit_order(side, price, qty).unwrap();
        assert_eq!(filled(&r.filled_orders) + r.remaining_qty, qty);
    }
}

#[test]
fn book_never_stays_crossed() {
    let mut book = OrderBook::new("X".to_string());
    let submissions: [(Side, u64, u64); 10] = [
        (Side::Ask, 100, 7),
        (Side::Bid, 100, 3),
        (Side::Bid, 105, 10),
        (Side::Ask, 104, 2),
        (Side::Ask, 90, 20),
        (Side::Bid, 95, 5),
        (Side::Bid, 89, 5),
        (Side::Ask, 89, 5),
        (Side::Ask, 96, 1),
        (Side::Bid, 96, 1),
    ];
    for (side, price, qty) in submissions {
        book.add_limit_order(side, price, qty).unwrap();
        let bid = book.best_bid_price();
        let ask = book.best_ask_price();
        if bid != u64::MIN && ask != u64::MAX {
            assert!(bid < ask);
        }
    }
}

#[test]
fn cancel_unknown_then_known_then_again() {
    let mut book = OrderBook::new("X".to_string());
    assert_eq!(book.cancel_order(42), Err(BookError::UnknownOrderId));
    let id = book.create_new_limit_order(Side::Bid, 10, 3);
    assert!(book.has_order(id));
    assert_eq!(book.cancel_order(id), Ok(Order { order_id: id, qty: 3 }));
    assert!(!book.has_order(id));
    assert_eq!(book.cancel_order(id), Err(BookError::UnknownOrderId));
}

#[test]
fn cancel_removes_only_the_named_order() {
    let mut book = OrderBook::new("X".to_string());
    book.add_limit_order_with_id(Side::Bid, 10, 3, 1).unwrap();
    book.add_limit_order_with_id(Side::Bid, 10, 4, 2).unwrap();
    book.add_limit_order_with_id(Side::Bid, 10, 5, 3).unwrap();
    book.add_limit_order_with_id(Side::Ask, 20, 6, 4).unwrap();
    assert_eq!(book.cancel_order(2), Ok(Order { order_id: 2, qty: 4 }));
    assert_eq!(
        book.orders_at(Side::Bid, 10),
        vec![Order { order_id: 1, qty: 3 }, Order { order_id: 3, qty: 5 }]
    );
    assert_eq!(book.orders_at(Side::Ask, 20), vec![Order { order_id: 4, qty: 6 }]);
    assert_eq!(book.total_qty_at(Side::Bid, 10), Ok(8));
}

#[test]
fn cancel_of_the_best_order_moves_the_best_price() {
    let mut book = OrderBook::new("X".to_string());
    book.add_limit_order_with_id(Side::Bid, 10, 3, 1).unwrap();
    book.add_limit_order_with_id(Side::Bid, 12, 4, 2).unwrap();
    assert_eq!(book.best_bid_price(), 12);
    book.cancel_order(2).unwrap();
    assert_eq!(book.best_bid_price(), 10);
    book.cancel_order(1).unwrap();
    assert_eq!(book.best_bid_price(), u64::MIN);
}

#[test]
fn failed_cancel_changes_nothing() {
    let mut book = OrderBook::new("X".to_string());
    book.add_limit_order_with_id(Side::Ask, 20, 6, 4).unwrap();
    assert_eq!(book.cancel_order(5), Err(BookError::UnknownOrderId));
    assert_eq!(book.orders_at(Side::Ask, 20), vec![Order { order_id: 4, qty: 6 }]);
    assert_eq!(book.best_ask_price(), 20);
}

#[test]
fn filled_order_can_no_longer_be_cancelled() {
    let mut book = OrderBook::new("X".to_string());
    book.add_limit_order_with_id(Side::Ask, 20, 6, 4).unwrap();
    book.add_limit_order_with_id(Side::Bid, 20, 6, 5).unwrap();
    assert_eq!(book.cancel_order(4), Err(BookError::UnknownOrderId));
    assert_eq!(book.cancel_order(5), Err(BookError::UnknownOrderId));
}

#[test]
fn top_of_book_reports_prices_quantities_and_spread() {
    let mut book = OrderBook::new("X".to_string());
    book.add_limit_order_with_id(Side::Bid, 98, 3, 1).unwrap();
    book.add_limit_order_with_id(Side::Bid, 99, 4, 2).unwrap();
    book.add_limit_order_with_id(Side::Bid, 99, 5, 3).unwrap();
    book.add_limit_order_with_id(Side::Ask, 102, 6, 4).unwrap();
    book.add_limit_order_with_id(Side::Ask, 104, 7, 5).unwrap();
    assert_eq!(
        book.get_bbo(),
        TopOfBook {
            best_bid_price: 99,
            best_bid_qty: 9,
            best_ask_price: 102,
            best_ask_qty: 6,
            spread: Some(3),
        }
    );
}

#[test]
fn spread_is_undefined_with_one_side_only() {
    let mut book = OrderBook::new("X".to_string());
    book.add_limit_order_with_id(Side::Bid, 98, 3, 1).unwrap();
    let top = book.get_bbo();
    assert_eq!(top.best_bid_price, 98);
    assert_eq!(top.best_bid_qty, 3);
    assert_eq!(top.best_ask_price, u64::MAX);
    assert_eq!(top.best_ask_qty, 0);
    assert_eq!(top.spread, None);
}

#[test]
fn best_prices_return_to_no_price_when_a_side_empties() {
    let mut book = OrderBook::new("X".to_string());
    book.add_limit_order_with_id(Side::Ask, 100, 5, 1).unwrap();
    assert_eq!(book.best_ask_price(), 100);
    book.add_limit_order_with_id(Side::Bid, 100, 5, 2).unwrap();
    assert_eq!(book.best_ask_price(), u64::MAX);
    assert_eq!(book.best_bid_price(), u64::MIN);
}

#[test]
fn resting_directly_leaves_best_prices_until_refreshed() {
    let mut book = OrderBook::new("X".to_string());
    let id = book.create_limit_order_with_id(Side::Bid, 50, 5, 77);
    assert_eq!(id, 77);
    assert_eq!(book.best_bid_price(), u64::MIN);
    book.update_bbo();
    assert_eq!(book.best_bid_price(), 50);
    assert_eq!(book.best_ask_price(), u64::MAX);
}

#[test]
fn total_quantity_does_not_overflow() {
    let mut book = OrderBook::new("X".to_string());
    book.add_limit_order_with_id(Side::Ask, 100, u64::MAX, 1).unwrap();
    book.add_limit_order_with_id(Side::Ask, 100, u64::MAX, 2).unwrap();
    assert_eq!(book.total_qty_at(Side::Ask, 100), Ok(2 * (u64::MAX as u128)));
}

#[test]
fn extreme_prices_are_accepted() {
    let mut book = OrderBook::new("X".to_string());
    book.add_limit_order_with_id(Side::Bid, 0, 5, 1).unwrap();
    book.add_limit_order_with_id(Side::Ask, u64::MAX, 5, 2).unwrap();
    assert_eq!(book.best_bid_price(), 0);
    assert_eq!(book.best_ask_price(), u64::MAX);
    assert_eq!(book.get_bbo().spread, None);
    let r = book.add_limit_order_with_id(Side::Ask, 0, 2, 3).unwrap();
    assert_eq!(r.filled_orders, vec![(0, 2)]);
    assert_eq!(book.orders_at(Side::Bid, 0), vec![Order { order_id: 1, qty: 3 }]);
}
