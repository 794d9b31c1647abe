//! The plain values the book exchanges with its callers.

use vstd::prelude::*;

verus! {

/// The side of the market an order belongs to.
#[derive(Clone, Copy, Debug, PartialEq, Eq, Structural)]
pub enum Side {
    Ask,
    Bid,
}

impl Side {
    /// The side an incoming order of this side trades against.
    pub open spec fn spec_opposite(self) -> Side {
        match self {
            Side::Ask => Side::Bid,
            Side::Bid => Side::Ask,
        }
    }

    /// The side an incoming order of this side trades against.
    #[verifier::when_used_as_spec(spec_opposite)]
    pub fn opposite(self) -> (other: Side)
        ensures
            other == self.spec_opposite(),
    {
        match self {
            Side::Ask => Side::Bid,
            Side::Bid => Side::Ask,
        }
    }

    /// Whether an incoming order of this side at `limit` may trade with a
    /// resting order of the opposite side at `level_price`.
    pub open spec fn spec_crosses(self, limit: u64, level_price: u64) -> bool {
        match self {
            Side::Bid => limit >= level_price,
            Side::Ask => limit <= level_price,
        }
    }

    /// Whether an incoming order of this side at `limit` may trade with a
    /// resting order of the opposite side at `level_price`: a bid at or
    /// above the price, an ask at or below it.
    #[verifier::when_used_as_spec(spec_crosses)]
    pub fn crosses(self, limit: u64, level_price: u64) -> (hit: bool)
        ensures
            hit == self.spec_crosses(limit, level_price),
    {
        match self {
            Side::Bid => limit >= level_price,
            Side::Ask => limit <= level_price,
        }
    }
}

/// How a submitted order ended up.
#[derive(Clone, Copy, Debug, PartialEq, Eq, Structural)]
pub enum OrderStatus {
    /// No submission has been recorded in the result yet.
    Uninitialized,
    /// Nothing traded; the whole quantity rests in the book.
    Created,
    /// The whole quantity traded.
    Filled,
    /// Part of the quantity traded, the rest is resting in the book.
    PartiallyFilled,
}

/// A resting order: its identifier and the quantity still open.
#[derive(Clone, Copy, Debug, PartialEq, Eq, Structural)]
pub struct Order {
    pub order_id: u128,
    pub qty: u64,
}

/// The conditions under which an operation of the book fails.
#[derive(Clone, Copy, Debug, PartialEq, Eq, Structural)]
pub enum BookError {
    /// No resting order carries the identifier.
    UnknownOrderId,
    /// The ladder has no level at the price (an empty level is not unknown).
    UnknownPriceLevel,
    /// A submitted quantity was zero.
    InvalidQuantity,
    /// An average price was asked of a result in which nothing traded.
    UndefinedAverage,
}

/// The distance from the best bid up to the best ask, where the book has
/// both and the bid is not above the ask.
pub open spec fn spread_of(best_bid: u64, best_ask: u64) -> Option<u64> {
    if best_bid != u64::MIN && best_ask != u64::MAX && best_bid <= best_ask {
        Some((best_ask - best_bid) as u64)
    } else {
        None
    }
}

/// The top of the book: the best price of each side with the quantity
/// resting at it, and the spread between the two.
#[derive(Clone, Copy, Debug, PartialEq, Eq, Structural)]
pub struct TopOfBook {
    pub best_bid_price: u64,
    pub best_bid_qty: u128,
    pub best_ask_price: u64,
    pub best_ask_qty: u128,
    pub spread: Option<u64>,
}

/// Total quantity over a list of `(price, quantity)` fills.
pub open spec fn filled_qty(fills: Seq<(u64, u64)>) -> nat
    decreases fills.len(),
{
    if fills.len() == 0 {
        0
    } else {
        fills[0].1 as nat + filled_qty(fills.drop_first())
    }
}

/// Total amount paid over a list of `(price, quantity)` fills.
pub open spec fn filled_value(fills: Seq<(u64, u64)>) -> nat
    decreases fills.len(),
{
    if fills.len() == 0 {
        0
    } else {
        fills[0].0 as nat * fills[0].1 as nat + filled_value(fills.drop_first())
    }
}

/// The status that goes with an order of `submitted` units of which
/// `remaining` are left after matching.
pub open spec fn status_of(submitted: u64, remaining: u64) -> OrderStatus {
    if remaining == 0 {
        OrderStatus::Filled
    } else if remaining == submitted {
        OrderStatus::Created
    } else {
        OrderStatus::PartiallyFilled
    }
}

/// What a submission did: the fills, one `(price, quantity)` entry per price
/// level that traded, in the order the levels were reached; the quantity
/// that did not trade; and the resulting status.
#[derive(Debug)]
pub struct FillResult {
    pub filled_orders: Vec<(u64, u64)>,
    pub remaining_qty: u64,
    pub status: OrderStatus,
}

/// The amount paid over a list of fills is at most the highest price
/// there is times the quantity filled.
pub proof fn lemma_filled_value_bound(fills: Seq<(u64, u64)>)
    ensures
        filled_value(fills) <= u64::MAX * filled_qty(fills),
    decreases fills.len(),
{
    if fills.len() > 0 {
        lemma_filled_value_bound(fills.drop_first());
        let p = fills[0].0 as nat;
        let q = fills[0].1 as nat;
        let rest = filled_qty(fills.drop_first());
        assert(p * q <= u64::MAX * q) by (nonlinear_arith)
            requires
                p <= u64::MAX,
        ;
        assert(u64::MAX * (q + rest) == u64::MAX * q + u64::MAX * rest) by (nonlinear_arith);
    }
}

impl FillResult {
    /// A result that records no submission yet.
    pub fn new() -> (r: FillResult)
        ensures
            r.filled_orders@ == Seq::<(u64, u64)>::empty(),
            r.remaining_qty == u64::MAX,
            r.status == OrderStatus::Uninitialized,
    {
        FillResult {
            filled_orders: Vec::new(),
            remaining_qty: u64::MAX,
            status: OrderStatus::Uninitialized,
        }
    }

    /// The average price of the fills as a fraction: the amount paid, which
    /// is the sum of price times quantity over the fills, and the quantity
    /// filled; the average is the first divided by the second. A result in
    /// which nothing was filled has no average.
    ///
    /// The quantities of the fills must add up to no more than one order
    /// can hold, as they do in every result of a submission.
    pub fn avg_fill_price(&self) -> (average: Result<(u128, u64), BookError>)
        requires
            filled_qty(self.filled_orders@) <= u64::MAX,
        ensures
            match average {
                Ok((paid, qty)) => {
                    &&& qty > 0
                    &&& paid == filled_value(self.filled_orders@)
                    &&& qty == filled_qty(self.filled_orders@)
                },
                Err(e) => e == BookError::UndefinedAverage && filled_qty(self.filled_orders@) == 0,
            },
    {
        let ghost fills = self.filled_orders@;
        let mut total_price_paid: u128 = 0;
        let mut total_qty: u64 = 0;
        let mut i: usize = 0;
        proof {
            assert(fills.skip(0) =~= fills);
            lemma_filled_value_bound(fills);
            assert(u64::MAX * filled_qty(fills) <= u128::MAX) by (nonlinear_arith)
                requires
                    filled_qty(fills) <= u64::MAX,
            ;
        }
        while i < self.filled_orders.len()
            invariant
                i <= fills.len(),
                fills == self.filled_orders@,
                total_price_paid + filled_value(fills.skip(i as int)) == filled_value(fills),
                total_qty + filled_qty(fills.skip(i as int)) == filled_qty(fills),
                filled_value(fills) <= u128::MAX,
                filled_qty(fills) <= u64::MAX,
            decreases fills.len() - i,
        {
            let (p, q) = self.filled_orders[i];
            proof {
                assert(fills.skip(i as int).drop_first() =~= fills.skip(i as int + 1));
                assert(fills.skip(i as int)[0] == (p, q));
                assert(p * q <= u64::MAX * u64::MAX) by (nonlinear_arith)
                    requires
                        p <= u64::MAX,
                        q <= u64::MAX,
                ;
            }
            total_price_paid = total_price_paid + (p as u128) * (q as u128);
            total_qty = total_qty + q;
            i = i + 1;
        }
        if total_qty == 0 {
            Err(BookError::UndefinedAverage)
        } else {
            Ok((total_price_paid, total_qty))
        }
    }
}

} // verus!
