//! A single-symbol limit order book with price-time priority matching.
//!
//! Orders rest in two price ladders, one per side. An incoming order is
//! matched against the opposite ladder from the best price outwards and,
//! within one price, in order of arrival; what is left of it rests on its
//! own side. The best bid and the best ask are kept beside the ladders.
//!
//! - [`types`]: sides, orders, errors and the results handed to callers.
//! - [`queue`]: one price level and how an incoming quantity meets it.
//! - [`priority`]: the order in which the prices of a ladder are visited.
//! - [`sweep`]: matching against a whole ladder, as a mathematical function.
//! - [`state`]: the book as a mathematical value, its operations and laws.
//! - [`ident`]: order identifiers.
//! - [`index`]: the agreement between the order index and the levels.
//! - [`ladder`]: one side of the book.
//! - [`book`]: the book itself.

pub mod types;
pub mod queue;
pub mod priority;
pub mod sweep;
pub mod state;
pub mod ident;
pub mod index;
pub mod ladder;
pub mod book;

pub use book::OrderBook;
pub use ladder::HalfBook;
pub use types::{BookError, FillResult, Order, OrderStatus, Side, TopOfBook};
