use orderbook::book::OrderBook;
use orderbook::types::{Order, Side};

#[test]
fn random_identifier_is_a_version_four_uuid() {
    let mut book = OrderBook::new("X".to_string());
    let id = book.create_new_limit_order(Side::Bid, 10, 1);
    assert_eq!(
        id & 0x0000_0000_0000_f000_c000_0000_0000_0000,
        0x0000_0000_0000_4000_8000_0000_0000_0000
    );
    assert!(book.has_order(id));
    assert_eq!(book.orders_at(Side::Bid, 10), vec![Order { order_id: id, qty: 1 }]);
}

#[test]
fn random_identifiers_are_distinct_in_the_book() {
    let mut book = OrderBook::new("X".to_string());
    let mut seen: Vec<u128> = Vec::new();
    for _ in 0..200 {
        let id = book.create_new_limit_order(Side::Ask, 10, 1);
        assert!(!seen.contains(&id));
        seen.push(id);
    }
    assert_eq!(book.orders_at(Side::Ask, 10).len(), 200);
}

#[test]
fn unused_candidate_is_taken_as_it_is() {
    let mut book = OrderBook::new("X".to_string());
    assert_eq!(book.unused_id_from(5), 5);
    assert_eq!(book.create_limit_order_with_id(Side::Bid, 10, 1, 5), 5);
    assert_eq!(book.unused_id_from(6), 6);
}

#[test]
fn used_candidate_steps_to_the_next_unused() {
    let mut book = OrderBook::new("X".to_string());
    assert_eq!(book.create_limit_order_with_id(Side::Bid, 10, 1, 5), 5);
    assert_eq!(book.create_limit_order_with_id(Side::Bid, 10, 1, 6), 6);
    assert_eq!(book.create_limit_order_with_id(Side::Ask, 20, 1, 8), 8);
    assert_eq!(book.unused_id_from(5), 7);
    assert_eq!(book.create_limit_order_with_id(Side::Ask, 20, 1, 5), 7);
    assert_eq!(book.create_limit_order_with_id(Side::Ask, 20, 1, 5), 9);
}

#[test]
fn identifier_search_goes_round_at_the_largest_number() {
    let mut book = OrderBook::new("X".to_string());
    assert_eq!(book.create_limit_order_with_id(Side::Bid, 10, 1, u128::MAX), u128::MAX);
    assert_eq!(book.create_limit_order_with_id(Side::Bid, 10, 1, u128::MAX), 0);
    assert_eq!(book.create_limit_order_with_id(Side::Bid, 10, 1, u128::MAX), 1);
}

#[test]
fn identifier_of_a_filled_order_is_free_again() {
    let mut book = OrderBook::new("X".to_string());
    book.add_limit_order_with_id(Side::Ask, 10, 5, 1).unwrap();
    book.add_limit_order_with_id(Side::Bid, 10, 8, 1).unwrap();
    assert_eq!(book.orders_at(Side::Bid, 10), vec![Order { order_id: 1, qty: 3 }]);
}
