//! The order book: two ladders, the index of resting orders, and the best
//! bid and ask.

use crate::ident::{lemma_first_unused_is, lemma_used_run_is_short, nth_after, random_order_id};
use crate::index::{
    index_agrees, lemma_index_after_cancel, lemma_index_after_match, lemma_index_after_push, pick,
};
use crate::ladder::HalfBook;
use crate::queue::{order_ids, total_qty};
use crate::state::{
    is_best_price, lemma_best_bid_below_best_ask, lemma_cancelled_uncrossed,
    lemma_submission_conserves_quantity,
    lemma_submitted_uncrossed, lemma_without_in_ladder, lemma_without_not_in_ladder, queue_at,
    BookState,
};
use crate::sweep::{levels_valid, sweep};
use crate::types::{
    filled_qty, spread_of, status_of, BookError, FillResult, Order, OrderStatus, Side, TopOfBook,
};
use std::collections::HashMap;
use vstd::prelude::*;

verus! {

/// The queues of side `of`, where `own` are the queues of side `own_side`
/// and `others` those of the opposite side.
pub open spec fn arrange(
    of: Side,
    own_side: Side,
    own: Seq<Seq<Order>>,
    others: Seq<Seq<Order>>,
) -> Seq<Seq<Order>> {
    if of == own_side {
        own
    } else {
        others
    }
}

/// Matches an incoming order of side `taker` against the opposite ladder:
/// its levels are visited best price first while the limit price crosses
/// them and quantity is left. Returns the fills, one entry for each level
/// that traded, and the quantity left.
fn sweep_ladder(
    ladder: &mut HalfBook,
    others: Ghost<Seq<Seq<Order>>>,
    order_loc: &mut HashMap<u128, (Side, usize)>,
    taker: Side,
    limit: u64,
    qty: u64,
) -> (out: (Vec<(u64, u64)>, u64))
    requires
        old(ladder).wf(),
        old(ladder).side() == taker.opposite(),
        index_agrees(
            arrange(Side::Ask, old(ladder).side(), old(ladder).queues(), others@),
            arrange(Side::Bid, old(ladder).side(), old(ladder).queues(), others@),
            old(order_loc)@,
        ),
    ensures
        final(ladder).wf(),
        final(ladder).side() == old(ladder).side(),
        index_agrees(
            arrange(Side::Ask, old(ladder).side(), final(ladder).queues(), others@),
            arrange(Side::Bid, old(ladder).side(), final(ladder).queues(), others@),
            final(order_loc)@,
        ),
        final(ladder)@ == sweep(
            old(ladder)@,
            old(ladder).priority_prices(),
            taker,
            limit,
            qty as nat,
        ).levels,
        out.0@ == sweep(old(ladder)@, old(ladder).priority_prices(), taker, limit, qty as nat).fills,
        out.1 == sweep(old(ladder)@, old(ladder).priority_prices(), taker, limit, qty as nat).left,
{
    let prices = ladder.prices_in_priority_order();
    let ghost maker = ladder.side();
    let ghost target = sweep(ladder@, prices@, taker, limit, qty as nat);
    let mut fills: Vec<(u64, u64)> = Vec::new();
    let mut remaining = qty;
    let mut i: usize = 0;
    assert(prices@.skip(0) =~= prices@);
    assert(fills@ + target.fills =~= target.fills);
    while i < prices.len() && remaining > 0 && taker.crosses(limit, prices[i])
        invariant
            i <= prices@.len(),
            ladder.wf(),
            ladder.side() == maker,
            ladder.slots() == old(ladder).slots(),
            forall|p: u64| prices@.contains(p) <==> old(ladder).slots().contains_key(p),
            index_agrees(
                arrange(Side::Ask, maker, ladder.queues(), others@),
                arrange(Side::Bid, maker, ladder.queues(), others@),
                order_loc@,
            ),
            sweep(ladder@, prices@.skip(i as int), taker, limit, remaining as nat).levels
                == target.levels,
            fills@ + sweep(ladder@, prices@.skip(i as int), taker, limit, remaining as nat).fills
                == target.fills,
            sweep(ladder@, prices@.skip(i as int), taker, limit, remaining as nat).left
                == target.left,
        decreases prices@.len() - i,
    {
        let price = prices[i];
        let ghost before = ladder@;
        let ghost tail = prices@.skip(i as int);
        let ghost wanted = remaining as nat;
        let ghost step = sweep(before, tail, taker, limit, wanted);
        let ghost fills_before = fills@;
        proof {
            assert(tail[0] == price);
            assert(prices@.contains(price));
            assert(tail.drop_first() =~= prices@.skip(i as int + 1));
        }
        match ladder.location_of(price) {
            Some(slot) => {
                proof {
                    lemma_index_after_match(
                        arrange(Side::Ask, maker, ladder.queues(), others@),
                        arrange(Side::Bid, maker, ladder.queues(), others@),
                        order_loc@,
                        maker,
                        slot as int,
                        wanted,
                    );
                }
                let done = ladder.match_level(slot, &mut remaining, order_loc);
                if done != 0 {
                    fills.push((price, done));
                }
                proof {
                    let next = sweep(ladder@, prices@.skip(i as int + 1), taker, limit, remaining as nat);
                    assert(step.levels == next.levels);
                    assert(step.left == next.left);
                    if done != 0 {
                        assert(step.fills == seq![(price, done)] + next.fills);
                        assert(fills@ + next.fills =~= fills_before + step.fills);
                    }
                }
            },
            // every listed price has a level
            None => {},
        }
        i = i + 1;
    }
    (fills, remaining)
}

/// A limit order book for one symbol.
#[derive(Debug)]
pub struct OrderBook {
    pub(crate) symbol: String,
    pub(crate) best_ask_price: u64,
    pub(crate) best_bid_price: u64,
    pub(crate) ask_book: HalfBook,
    pub(crate) bid_book: HalfBook,
    pub(crate) order_loc: HashMap<u128, (Side, usize)>,
}

impl View for OrderBook {
    type V = BookState;

    /// The resting orders of the book.
    open(crate) spec fn view(&self) -> BookState {
        BookState { bids: self.bid_book@, asks: self.ask_book@ }
    }
}

impl OrderBook {
    /// The book is well formed when each ladder is, each holds the orders
    /// of its own side, and the order index agrees with the levels: every
    /// resting order has quantity left and an identifier of its own, and the
    /// index knows exactly the resting orders, each under its place.
    pub open(crate) spec fn wf(&self) -> bool {
        &&& self.ask_book.wf()
        &&& self.ask_book.side() == Side::Ask
        &&& self.bid_book.wf()
        &&& self.bid_book.side() == Side::Bid
        &&& index_agrees(self.ask_book.queues(), self.bid_book.queues(), self.order_loc@)
    }

    /// The ladder of one side.
    pub open(crate) spec fn ladder_of(&self, side: Side) -> HalfBook {
        match side {
            Side::Ask => self.ask_book,
            Side::Bid => self.bid_book,
        }
    }

    /// The best bid as the book has recorded it.
    pub open(crate) spec fn best_bid(&self) -> u64 {
        self.best_bid_price
    }

    /// The best ask as the book has recorded it.
    pub open(crate) spec fn best_ask(&self) -> u64 {
        self.best_ask_price
    }

    /// The symbol the book trades.
    pub open(crate) spec fn symbol_text(&self) -> Seq<char> {
        self.symbol@
    }

    /// The recorded best bid and ask are those of the resting orders.
    pub open spec fn bbo_current(&self) -> bool {
        &&& is_best_price(self@.bids, Side::Bid, self.best_bid())
        &&& is_best_price(self@.asks, Side::Ask, self.best_ask())
    }

    /// The resting orders of a well-formed book are valid.
    pub proof fn lemma_view_is_valid(&self)
        requires
            self.wf(),
        ensures
            self@.valid(),
            self@.ids().finite(),
    {
        self.lemma_wf_view();
        let asks = self.ask_book.queues();
        let bids = self.bid_book.queues();
        let loc = self.order_loc@;
        assert forall|s1: Side, p1: u64, s2: Side, p2: u64, id: u128|
            #![trigger self@.level_holds(s1, p1, id), self@.level_holds(s2, p2, id)]
            self@.level_holds(s1, p1, id) && self@.level_holds(s2, p2, id) implies s1 == s2 && p1
            == p2 by {
            let slot1 = self.ladder_of(s1).slots()[p1] as int;
            let slot2 = self.ladder_of(s2).slots()[p2] as int;
            assert(order_ids(pick(s1, asks, bids)[slot1]).contains(id));
            assert(order_ids(pick(s2, asks, bids)[slot2]).contains(id));
            assert(loc[id] == (s1, slot1 as usize));
            assert(loc[id] == (s2, slot2 as usize));
        }
    }

    /// In a well-formed book the index holds exactly the identifiers of the
    /// resting orders, every level is a valid queue, and each ladder has
    /// finitely many prices.
    pub(crate) proof fn lemma_wf_view(&self)
        requires
            self.wf(),
        ensures
            self.order_loc@.dom() == self@.ids(),
            forall|id: u128|
                #![trigger self.order_loc@.contains_key(id)]
                #![trigger self@.holds(id)]
                self.order_loc@.contains_key(id) <==> self@.holds(id),
            self@.ids().finite(),
            levels_valid(self@.bids),
            levels_valid(self@.asks),
            self@.bids.dom().finite(),
            self@.asks.dom().finite(),
    {
        let asks = self.ask_book.queues();
        let bids = self.bid_book.queues();
        let loc = self.order_loc@;
        assert forall|id: u128|
            #![trigger loc.contains_key(id)]
            #![trigger self@.holds(id)]
            loc.contains_key(id) <==> self@.holds(id) by {
            if loc.contains_key(id) {
                let side = loc[id].0;
                let slot = loc[id].1 as int;
                let ladder = if side == Side::Ask { self.ask_book } else { self.bid_book };
                let price = ladder.slot_prices()[slot];
                assert(ladder.slots().contains_key(price));
                assert(self@.ladder(side).contains_key(price));
                assert(self@.ladder(side)[price] == pick(side, asks, bids)[slot]);
            }
            if self@.holds(id) {
                let (side, price) = choose|side: Side, price: u64|
                    (#[trigger] self@.ladder(side).contains_key(price)) && order_ids(
                        self@.ladder(side)[price],
                    ).contains(id);
                let ladder = if side == Side::Ask { self.ask_book } else { self.bid_book };
                let slot = ladder.slots()[price] as int;
                assert(order_ids(pick(side, asks, bids)[slot]).contains(id));
            }
        }
        assert(loc.dom() =~= self@.ids());
        assert(self@.bids.dom() =~= self.bid_book.slots().dom());
        assert(self@.asks.dom() =~= self.ask_book.slots().dom());
    }

    /// An empty book for `symbol`: no level, no order, and neither a best
    /// bid nor a best ask.
    pub fn new(symbol: String) -> (book: OrderBook)
        ensures
            book.wf(),
            book@ == BookState::empty(),
            book.symbol_text() == symbol@,
            book.best_bid() == u64::MIN,
            book.best_ask() == u64::MAX,
            book.bbo_current(),
            book@.uncrossed(),
    {
        let book = OrderBook {
            symbol,
            best_ask_price: u64::MAX,
            best_bid_price: u64::MIN,
            bid_book: HalfBook::new(Side::Bid),
            ask_book: HalfBook::new(Side::Ask),
            order_loc: HashMap::with_capacity(5000),
        };
        book
    }

    /// The best bid: the highest price at which a buy order rests, or the
    /// lowest number while none does. It is as current as the last refresh.
    pub fn best_bid_price(&self) -> (price: u64)
        ensures
            price == self.best_bid(),
    {
        self.best_bid_price
    }

    /// The best ask: the lowest price at which a sell order rests, or the
    /// highest number while none does. It is as current as the last refresh.
    pub fn best_ask_price(&self) -> (price: u64)
        ensures
            price == self.best_ask(),
    {
        self.best_ask_price
    }

    /// Whether an order of identifier `order_id` rests in the book.
    pub fn has_order(&self, order_id: u128) -> (found: bool)
        requires
            self.wf(),
        ensures
            found == self@.holds(order_id),
    {
        proof {
            self.lemma_wf_view();
        }
        self.order_loc.contains_key(&order_id)
    }

    /// The identifier for a new resting order when `candidate` is proposed:
    /// the candidate itself unless a resting order carries it, else the
    /// next number that none carries.
    pub fn unused_id_from(&self, candidate: u128) -> (id: u128)
        requires
            self.wf(),
        ensures
            id == self@.fresh_id(candidate),
            !self@.holds(id),
    {
        proof {
            self.lemma_wf_view();
        }
        let ghost used = self.order_loc@.dom();
        let mut id = candidate;
        let ghost mut steps: nat = 0;
        assert(used.len() == self.order_loc.len());
        while self.order_loc.contains_key(&id)
            invariant
                used == self.order_loc@.dom(),
                used.finite(),
                used.len() <= usize::MAX,
                id == nth_after(candidate, steps),
                forall|j: nat| j < steps ==> used.contains(#[trigger] nth_after(candidate, j)),
                steps <= used.len(),
            decreases used.len() - steps,
        {
            proof {
                lemma_used_run_is_short(used, candidate, steps + 1);
                steps = steps + 1;
            }
            id = if id == u128::MAX { 0 } else { id + 1 };
        }
        proof {
            lemma_first_unused_is(used, candidate, steps);
        }
        id
    }

    /// Rests a new order of `qty` units on side `s` at `price`, at the back
    /// of the level, under the identifier found from `candidate`, which is
    /// returned. Nothing is matched and the best prices are left as they
    /// were.
    pub fn create_limit_order_with_id(&mut self, s: Side, price: u64, qty: u64, candidate: u128) -> (order_id: u128)
        requires
            old(self).wf(),
            qty > 0,
        ensures
            final(self).wf(),
            order_id == old(self)@.fresh_id(candidate),
            !old(self)@.holds(order_id),
            final(self)@.holds(order_id),
            final(self)@ == old(self)@.rested(s, price, Order { order_id, qty }),
            final(self).best_bid() == old(self).best_bid(),
            final(self).best_ask() == old(self).best_ask(),
            final(self).symbol_text() == old(self).symbol_text(),
    {
        let order_id = self.unused_id_from(candidate);
        let order = Order { order_id, qty };
        proof {
            self.lemma_wf_view();
        }
        let ghost asks = self.ask_book.queues();
        let ghost bids = self.bid_book.queues();
        let ghost loc = self.order_loc@;
        let ghost is_new = !self@.ladder(s).contains_key(price);
        match s {
            Side::Ask => {
                let slot = self.ask_book.push_order(price, order);
                self.order_loc.insert(order_id, (s, slot));
                proof {
                    lemma_index_after_push(asks, bids, loc, s, is_new, slot as int, order);
                }
            },
            Side::Bid => {
                let slot = self.bid_book.push_order(price, order);
                self.order_loc.insert(order_id, (s, slot));
                proof {
                    lemma_index_after_push(asks, bids, loc, s, is_new, slot as int, order);
                }
            },
        }
        proof {
            self.lemma_wf_view();
        }
        order_id
    }

    /// Rests a new order of `qty` units on side `s` at `price`, at the back
    /// of the level, under an identifier drawn at random, which is returned.
    /// Nothing is matched and the best prices are left as they were.
    pub fn create_new_limit_order(&mut self, s: Side, price: u64, qty: u64) -> (order_id: u128)
        requires
            old(self).wf(),
            qty > 0,
        ensures
            final(self).wf(),
            !old(self)@.holds(order_id),
            final(self)@.holds(order_id),
            final(self)@ == old(self)@.rested(s, price, Order { order_id, qty }),
            final(self).best_bid() == old(self).best_bid(),
            final(self).best_ask() == old(self).best_ask(),
            final(self).symbol_text() == old(self).symbol_text(),
    {
        let candidate = random_order_id();
        self.create_limit_order_with_id(s, price, qty, candidate)
    }

    /// Sets the best bid and the best ask from the resting orders: the
    /// highest bid and the lowest ask that have an order resting, and for a
    /// side on which nothing rests the value that stands for no price.
    pub fn update_bbo(&mut self)
        requires
            old(self).wf(),
        ensures
            final(self).wf(),
            final(self)@ == old(self)@,
            final(self).bbo_current(),
            final(self).symbol_text() == old(self).symbol_text(),
    {
        self.best_bid_price = self.bid_book.best_price();
        self.best_ask_price = self.ask_book.best_price();
    }

    /// Matches an incoming order against the opposite side of the book and
    /// returns the fills and the quantity left. Nothing comes to rest and
    /// the best prices are left as they were.
    fn match_incoming(&mut self, s: Side, price: u64, qty: u64) -> (out: (Vec<(u64, u64)>, u64))
        requires
            old(self).wf(),
        ensures
            final(self).wf(),
            final(self)@ == old(self)@.after_match(s, price, qty),
            out.0@ == old(self)@.matched(s, price, qty).fills,
            out.1 == old(self)@.matched(s, price, qty).left,
            final(self).best_bid() == old(self).best_bid(),
            final(self).best_ask() == old(self).best_ask(),
            final(self).symbol_text() == old(self).symbol_text(),
    {
        match s {
            Side::Bid => sweep_ladder(
                &mut self.ask_book,
                Ghost(self.bid_book.queues()),
                &mut self.order_loc,
                s,
                price,
                qty,
            ),
            Side::Ask => sweep_ladder(
                &mut self.bid_book,
                Ghost(self.ask_book.queues()),
                &mut self.order_loc,
                s,
                price,
                qty,
            ),
        }
    }

    /// What a submission of `qty` units reports once `remaining` of them
    /// are left after matching with the fills `fills`.
    fn report(fills: Vec<(u64, u64)>, qty: u64, remaining: u64) -> (r: FillResult)
        ensures
            r.filled_orders == fills,
            r.remaining_qty == remaining,
            r.status == status_of(qty, remaining),
    {
        let status = if remaining == 0 {
            OrderStatus::Filled
        } else if remaining == qty {
            OrderStatus::Created
        } else {
            OrderStatus::PartiallyFilled
        };
        FillResult { filled_orders: fills, remaining_qty: remaining, status }
    }

    /// Submits a limit order of `order_qty` units on side `s` at `price`.
    ///
    /// The order is matched against the opposite side, best price first and
    /// oldest order first within a price, for as long as its price crosses
    /// and quantity is left. What is left comes to rest on its own side at
    /// its own price under the identifier found from `candidate`. The best
    /// prices are then set anew. A quantity of zero is refused and leaves
    /// the book as it was.
    pub fn add_limit_order_with_id(
        &mut self,
        s: Side,
        price: u64,
        order_qty: u64,
        candidate: u128,
    ) -> (result: Result<FillResult, BookError>)
        requires
            old(self).wf(),
        ensures
            final(self).wf(),
            final(self).symbol_text() == old(self).symbol_text(),
            match result {
                Ok(r) => {
                    &&& order_qty > 0
                    &&& r.filled_orders@ == old(self)@.matched(s, price, order_qty).fills
                    &&& r.remaining_qty == old(self)@.matched(s, price, order_qty).left
                    &&& r.status == status_of(order_qty, r.remaining_qty)
                    &&& filled_qty(r.filled_orders@) + r.remaining_qty == order_qty
                    &&& final(self)@ == old(self)@.submitted(s, price, order_qty, candidate)
                    &&& final(self).bbo_current()
                    &&& old(self)@.uncrossed() ==> final(self)@.uncrossed()
                    &&& old(self)@.uncrossed() && final(self).best_bid() != u64::MIN
                        && final(self).best_ask() != u64::MAX ==> final(self).best_bid()
                        < final(self).best_ask()
                },
                Err(e) => {
                    &&& order_qty == 0
                    &&& e == BookError::InvalidQuantity
                    &&& final(self)@ == old(self)@
                    &&& final(self).best_bid() == old(self).best_bid()
                    &&& final(self).best_ask() == old(self).best_ask()
                },
            },
    {
        if order_qty == 0 {
            return Err(BookError::InvalidQuantity);
        }
        proof {
            self.lemma_submission(s, price, order_qty, candidate);
        }
        let (fills, remaining) = self.match_incoming(s, price, order_qty);
        if remaining != 0 {
            self.create_limit_order_with_id(s, price, remaining, candidate);
        }
        self.update_bbo();
        proof {
            if old(self)@.uncrossed() && self.best_bid() != u64::MIN && self.best_ask()
                != u64::MAX {
                lemma_best_bid_below_best_ask(self@, self.best_bid(), self.best_ask());
            }
        }
        Ok(Self::report(fills, order_qty, remaining))
    }

    /// Submits a limit order of `order_qty` units on side `s` at `price`,
    /// as `add_limit_order_with_id` does, with the identifier of what comes
    /// to rest drawn at random.
    pub fn add_limit_order(&mut self, s: Side, price: u64, order_qty: u64) -> (result: Result<
        FillResult,
        BookError,
    >)
        requires
            old(self).wf(),
        ensures
            final(self).wf(),
            final(self).symbol_text() == old(self).symbol_text(),
            match result {
                Ok(r) => {
                    &&& order_qty > 0
                    &&& r.filled_orders@ == old(self)@.matched(s, price, order_qty).fills
                    &&& r.remaining_qty == old(self)@.matched(s, price, order_qty).left
                    &&& r.status == status_of(order_qty, r.remaining_qty)
                    &&& filled_qty(r.filled_orders@) + r.remaining_qty == order_qty
                    &&& exists|candidate: u128|
                        final(self)@ == old(self)@.submitted(s, price, order_qty, candidate)
                    &&& final(self).bbo_current()
                    &&& old(self)@.uncrossed() ==> final(self)@.uncrossed()
                    &&& old(self)@.uncrossed() && final(self).best_bid() != u64::MIN
                        && final(self).best_ask() != u64::MAX ==> final(self).best_bid()
                        < final(self).best_ask()
                },
                Err(e) => {
                    &&& order_qty == 0
                    &&& e == BookError::InvalidQuantity
                    &&& final(self)@ == old(self)@
                    &&& final(self).best_bid() == old(self).best_bid()
                    &&& final(self).best_ask() == old(self).best_ask()
                },
            },
    {
        if order_qty == 0 {
            return Err(BookError::InvalidQuantity);
        }
        let (fills, remaining) = self.match_incoming(s, price, order_qty);
        let ghost swept = self@;
        if remaining != 0 {
            let order_id = self.create_new_limit_order(s, price, remaining);
            proof {
                lemma_first_unused_is(swept.ids(), order_id, 0);
                old(self).lemma_submission(s, price, order_qty, order_id);
                assert(self@ == old(self)@.submitted(s, price, order_qty, order_id));
            }
        } else {
            proof {
                old(self).lemma_submission(s, price, order_qty, 0);
                assert(self@ == old(self)@.submitted(s, price, order_qty, 0));
            }
        }
        self.update_bbo();
        proof {
            if old(self)@.uncrossed() && self.best_bid() != u64::MIN && self.best_ask()
                != u64::MAX {
                lemma_best_bid_below_best_ask(self@, self.best_bid(), self.best_ask());
            }
        }
        Ok(Self::report(fills, order_qty, remaining))
    }

    /// Cancels the resting order of identifier `order_id`: the order leaves
    /// its level and the index and is handed back, and the best prices are
    /// set anew. An identifier that no resting order carries is refused and
    /// leaves the book as it was.
    pub fn cancel_order(&mut self, order_id: u128) -> (result: Result<Order, BookError>)
        requires
            old(self).wf(),
        ensures
            final(self).wf(),
            final(self).symbol_text() == old(self).symbol_text(),
            match result {
                Ok(order) => {
                    &&& old(self)@.holds(order_id)
                    &&& order.order_id == order_id
                    &&& exists|side: Side, price: u64| old(self)@.rests_at(side, price, order)
                    &&& final(self)@ == old(self)@.cancelled(order_id)
                    &&& !final(self)@.holds(order_id)
                    &&& final(self).bbo_current()
                    &&& old(self)@.uncrossed() ==> final(self)@.uncrossed()
                },
                Err(e) => {
                    &&& !old(self)@.holds(order_id)
                    &&& e == BookError::UnknownOrderId
                    &&& final(self)@ == old(self)@
                    &&& final(self).best_bid() == old(self).best_bid()
                    &&& final(self).best_ask() == old(self).best_ask()
                },
            },
    {
        proof {
            self.lemma_wf_view();
        }
        let place = match self.order_loc.get(&order_id) {
            Some(found) => Some(*found),
            None => None,
        };
        match place {
            None => Err(BookError::UnknownOrderId),
            Some((side, slot)) => {
                let ghost asks = self.ask_book.queues();
                let ghost bids = self.bid_book.queues();
                let ghost loc = self.order_loc@;
                proof {
                    let q = pick(side, asks, bids)[slot as int];
                    assert(order_ids(q).contains(order_id));
                    let k = choose|k: int| 0 <= k < order_ids(q).len() && order_ids(q)[k] == order_id;
                    assert(q[k].order_id == order_id);
                }
                let (order, Ghost(pos)) = match side {
                    Side::Ask => self.ask_book.take_order(slot, order_id),
                    Side::Bid => self.bid_book.take_order(slot, order_id),
                };
                self.order_loc.remove(&order_id);
                proof {
                    lemma_index_after_cancel(asks, bids, loc, order_id, pos);
                    old(self).lemma_cancel_view(order_id, side, slot, pos);
                    self.lemma_wf_view();
                    if old(self)@.uncrossed() {
                        lemma_cancelled_uncrossed(old(self)@, order_id);
                    }
                }
                self.update_bbo();
                Ok(order)
            },
        }
    }

    /// In the view of the book, taking the order at position `pos` out of
    /// the level behind `slot` on side `side` is taking its identifier out
    /// of every level.
    pub(crate) proof fn lemma_cancel_view(&self, id: u128, side: Side, slot: usize, pos: int)
        requires
            self.wf(),
            self.order_loc@.contains_key(id),
            self.order_loc@[id] == (side, slot),
            0 <= pos < self.ladder_of(side).queues()[slot as int].len(),
            self.ladder_of(side).queues()[slot as int][pos].order_id == id,
        ensures
            self@.cancelled(id) == self@.with_ladder(
                side,
                self@.ladder(side).insert(
                    self.ladder_of(side).slot_prices()[slot as int],
                    self.ladder_of(side).queues()[slot as int].remove(pos),
                ),
            ),
            self@.rests_at(
                side,
                self.ladder_of(side).slot_prices()[slot as int],
                self.ladder_of(side).queues()[slot as int][pos],
            ),
    {
        let asks = self.ask_book.queues();
        let bids = self.bid_book.queues();
        let loc = self.order_loc@;
        let q = pick(side, asks, bids)[slot as int];
        let own = self.ladder_of(side);
        let other = self.ladder_of(side.opposite());
        let price = own.slot_prices()[slot as int];
        assert(own.slots().contains_key(price) && own.slots()[price] == slot);
        assert(own@[price] == q);
        assert(q.contains(q[pos]));
        assert(crate::queue::queue_valid(q));
        assert forall|i: int| 0 <= i < pos implies (#[trigger] q[i]).order_id != id by {
            assert(order_ids(q)[i] == q[i].order_id);
            assert(order_ids(q)[pos] == id);
        }
        assert forall|p: u64| #[trigger] own@.contains_key(p) && p != price implies !order_ids(
            own@[p],
        ).contains(id) by {
            let s2 = own.slots()[p] as int;
            if order_ids(own@[p]).contains(id) {
                assert(order_ids(pick(side, asks, bids)[s2]).contains(id));
                assert(loc[id] == (side, s2 as usize));
            }
        }
        assert forall|p: u64| #[trigger] other@.contains_key(p) implies !order_ids(
            other@[p],
        ).contains(id) by {
            let s2 = other.slots()[p] as int;
            if order_ids(other@[p]).contains(id) {
                assert(order_ids(pick(side.opposite(), asks, bids)[s2]).contains(id));
                assert(loc[id] == (side.opposite(), s2 as usize));
            }
        }
        lemma_without_in_ladder(own@, id, price, pos);
        lemma_without_not_in_ladder(other@, id);
    }

    /// The quantity resting on side `s` at `price`. A side that has no
    /// level at the price has no answer; a level that is empty rests
    /// nothing.
    pub fn total_qty_at(&self, s: Side, price: u64) -> (total: Result<u128, BookError>)
        requires
            self.wf(),
        ensures
            match total {
                Ok(sum) => self@.ladder(s).contains_key(price) && sum == total_qty(
                    self@.ladder(s)[price],
                ),
                Err(e) => e == BookError::UnknownPriceLevel && !self@.ladder(s).contains_key(price),
            },
    {
        match s {
            Side::Ask => self.ask_book.get_total_qty(price),
            Side::Bid => self.bid_book.get_total_qty(price),
        }
    }

    /// The orders resting on side `s` at `price`, oldest first; none where
    /// the side has no level at the price.
    pub fn orders_at(&self, s: Side, price: u64) -> (orders: Vec<Order>)
        requires
            self.wf(),
        ensures
            orders@ == queue_at(self@.ladder(s), price),
    {
        match s {
            Side::Ask => self.ask_book.orders_at(price),
            Side::Bid => self.bid_book.orders_at(price),
        }
    }

    /// The top of the book: the recorded best prices, the quantity resting
    /// at each (none where the side has no level at that price), and the
    /// spread, where the book has both prices and the bid is not above the
    /// ask.
    pub fn get_bbo(&self) -> (top: TopOfBook)
        requires
            self.wf(),
        ensures
            top.best_bid_price == self.best_bid(),
            top.best_ask_price == self.best_ask(),
            top.best_bid_qty == total_qty(queue_at(self@.bids, self.best_bid())),
            top.best_ask_qty == total_qty(queue_at(self@.asks, self.best_ask())),
            top.spread == spread_of(self.best_bid(), self.best_ask()),
    {
        let best_bid_qty = match self.bid_book.get_total_qty(self.best_bid_price) {
            Ok(total) => total,
            Err(_) => 0,
        };
        let best_ask_qty = match self.ask_book.get_total_qty(self.best_ask_price) {
            Ok(total) => total,
            Err(_) => 0,
        };
        let spread = if self.best_bid_price != u64::MIN && self.best_ask_price != u64::MAX
            && self.best_bid_price <= self.best_ask_price {
            Some(self.best_ask_price - self.best_bid_price)
        } else {
            None
        };
        TopOfBook {
            best_bid_price: self.best_bid_price,
            best_bid_qty,
            best_ask_price: self.best_ask_price,
            best_ask_qty,
            spread,
        }
    }

    /// What holds of every submission to a well-formed book: the quantity
    /// that trades and the quantity left add up to the quantity submitted,
    /// and an uncrossed book stays uncrossed.
    pub(crate) proof fn lemma_submission(&self, s: Side, price: u64, qty: u64, candidate: u128)
        requires
            self.wf(),
        ensures
            filled_qty(self@.matched(s, price, qty).fills) + self@.matched(s, price, qty).left
                == qty,
            self@.uncrossed() ==> self@.submitted(s, price, qty, candidate).uncrossed(),
    {
        self.lemma_view_is_valid();
        lemma_submission_conserves_quantity(self@, s, price, qty);
        if self@.uncrossed() {
            lemma_submitted_uncrossed(self@, s, price, qty, candidate);
        }
    }
}

} // verus!
