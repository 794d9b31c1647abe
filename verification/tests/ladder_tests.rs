use orderbook::ladder::HalfBook;
use orderbook::priority::{ascending_prices, prices_by_priority};
use orderbook::types::{BookError, Side};
use std::collections::BTreeMap;

#[test]
fn new_ladder_has_no_level() {
    let ladder = HalfBook::new(Side::Ask);
    assert_eq!(ladder.location_of(10), None);
    assert_eq!(ladder.get_total_qty(10), Err(BookError::UnknownPriceLevel));
    assert!(ladder.prices_in_priority_order().is_empty());
    assert_eq!(ladder.best_price(), u64::MAX);
    assert_eq!(HalfBook::new(Side::Bid).best_price(), u64::MIN);
}

#[test]
fn ensure_level_creates_once_and_keeps_handles() {
    let mut ladder = HalfBook::new(Side::Bid);
    assert_eq!(ladder.ensure_level(30), 0);
    assert_eq!(ladder.ensure_level(10), 1);
    assert_eq!(ladder.ensure_level(20), 2);
    assert_eq!(ladder.ensure_level(30), 0);
    assert_eq!(ladder.ensure_level(10), 1);
    assert_eq!(ladder.location_of(20), Some(2));
    assert_eq!(ladder.location_of(25), None);
}

#[test]
fn empty_level_is_not_an_unknown_level() {
    let mut ladder = HalfBook::new(Side::Ask);
    ladder.ensure_level(30);
    assert_eq!(ladder.get_total_qty(30), Ok(0));
    assert_eq!(ladder.get_total_qty(31), Err(BookError::UnknownPriceLevel));
    assert!(ladder.orders_at(30).is_empty());
    assert!(ladder.orders_at(31).is_empty());
}

#[test]
fn empty_level_is_no_best_price() {
    let mut asks = HalfBook::new(Side::Ask);
    asks.ensure_level(30);
    assert_eq!(asks.best_price(), u64::MAX);
    let mut bids = HalfBook::new(Side::Bid);
    bids.ensure_level(30);
    assert_eq!(bids.best_price(), u64::MIN);
}

#[test]
fn asks_are_visited_from_the_lowest_price() {
    let mut ladder = HalfBook::new(Side::Ask);
    ladder.ensure_level(30);
    ladder.ensure_level(10);
    ladder.ensure_level(20);
    assert_eq!(ladder.prices_in_priority_order(), vec![10, 20, 30]);
}

#[test]
fn bids_are_visited_from_the_highest_price() {
    let mut ladder = HalfBook::new(Side::Bid);
    ladder.ensure_level(30);
    ladder.ensure_level(10);
    ladder.ensure_level(20);
    assert_eq!(ladder.prices_in_priority_order(), vec![30, 20, 10]);
}

#[test]
fn prices_of_a_map_in_both_directions() {
    let mut map: BTreeMap<u64, usize> = BTreeMap::new();
    map.insert(7, 0);
    map.insert(3, 1);
    map.insert(u64::MAX, 2);
    map.insert(0, 3);
    assert_eq!(ascending_prices(&map), vec![0, 3, 7, u64::MAX]);
    assert_eq!(prices_by_priority(&map, Side::Ask), vec![0, 3, 7, u64::MAX]);
    assert_eq!(prices_by_priority(&map, Side::Bid), vec![u64::MAX, 7, 3, 0]);
    let none: BTreeMap<u64, usize> = BTreeMap::new();
    assert!(prices_by_priority(&none, Side::Bid).is_empty());
}
