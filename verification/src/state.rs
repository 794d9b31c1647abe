//! The book as a mathematical value: for each side, the queue of resting
//! orders at each price. The operations of the book are stated as functions
//! on this value.

use crate::ident::first_unused;
use crate::priority::{at_least_as_good, by_priority, lemma_ascending_exists, lemma_priority_listing};
use crate::queue::{order_ids, queue_positive, queue_valid};
use crate::sweep::{
    lemma_sweep_conserves, lemma_sweep_properties, levels_positive, levels_valid, sweep, Sweep,
};
use crate::types::{filled_qty, Order, Side};
use vstd::prelude::*;

verus! {

/// The resting orders of a book: for each side, the price levels by price,
/// each a queue with the oldest order in front.
pub struct BookState {
    pub bids: Map<u64, Seq<Order>>,
    pub asks: Map<u64, Seq<Order>>,
}

/// One submission: the side, the limit price and the quantity of the order,
/// and the identifier proposed for what may come to rest of it.
pub struct Submission {
    pub side: Side,
    pub limit: u64,
    pub qty: u64,
    pub candidate: u128,
}

/// Whether a ladder has liquidity at price `p`: a level that is not empty.
pub open spec fn live(levels: Map<u64, Seq<Order>>, p: u64) -> bool {
    levels.contains_key(p) && levels[p].len() > 0
}

/// The best price of a side on which nothing rests: the lowest number for
/// the bids, the highest for the asks.
pub open spec fn no_price(side: Side) -> u64 {
    match side {
        Side::Bid => u64::MIN,
        Side::Ask => u64::MAX,
    }
}

/// Whether `best` is the best price of the ladder `levels` of side `side`:
/// the best among the prices with liquidity, or `no_price` where there is
/// none.
pub open spec fn is_best_price(levels: Map<u64, Seq<Order>>, side: Side, best: u64) -> bool {
    if exists|p: u64| live(levels, p) {
        live(levels, best) && forall|p: u64| #[trigger]
            live(levels, p) ==> at_least_as_good(side, best, p)
    } else {
        best == no_price(side)
    }
}

/// The queue without its first order of identifier `id`.
pub open spec fn without_order(q: Seq<Order>, id: u128) -> Seq<Order>
    decreases q.len(),
{
    if q.len() == 0 {
        q
    } else if q[0].order_id == id {
        q.drop_first()
    } else {
        seq![q[0]] + without_order(q.drop_first(), id)
    }
}

/// The level at `price` of a ladder, empty where the ladder has none.
pub open spec fn queue_at(levels: Map<u64, Seq<Order>>, price: u64) -> Seq<Order> {
    if levels.contains_key(price) {
        levels[price]
    } else {
        Seq::empty()
    }
}

impl BookState {
    /// The book in which nothing rests and no level exists.
    pub open spec fn empty() -> BookState {
        BookState { bids: Map::empty(), asks: Map::empty() }
    }

    /// The ladder of one side.
    pub open spec fn ladder(self, side: Side) -> Map<u64, Seq<Order>> {
        match side {
            Side::Bid => self.bids,
            Side::Ask => self.asks,
        }
    }

    /// The book with the ladder of one side replaced.
    pub open spec fn with_ladder(self, side: Side, levels: Map<u64, Seq<Order>>) -> BookState {
        match side {
            Side::Bid => BookState { bids: levels, asks: self.asks },
            Side::Ask => BookState { bids: self.bids, asks: levels },
        }
    }

    /// Whether an order of identifier `id` rests in the book.
    pub open spec fn holds(self, id: u128) -> bool {
        exists|side: Side, price: u64|
            (#[trigger] self.ladder(side).contains_key(price)) && order_ids(
                self.ladder(side)[price],
            ).contains(id)
    }

    /// The identifiers of the resting orders.
    pub open spec fn ids(self) -> Set<u128> {
        Set::new(|id: u128| self.holds(id))
    }

    /// What holds of the resting orders of every book: each side has
    /// finitely many levels, every resting order has quantity left, and no
    /// two resting orders carry the same identifier.
    pub open spec fn valid(self) -> bool {
        &&& self.bids.dom().finite()
        &&& self.asks.dom().finite()
        &&& levels_valid(self.bids)
        &&& levels_valid(self.asks)
        &&& forall|s1: Side, p1: u64, s2: Side, p2: u64, id: u128|
            #![trigger self.level_holds(s1, p1, id), self.level_holds(s2, p2, id)]
            self.level_holds(s1, p1, id) && self.level_holds(s2, p2, id) ==> s1 == s2 && p1 == p2
    }

    /// Each side has finitely many levels and every resting order has
    /// quantity left. This much of `valid` is what matching relies on.
    pub open spec fn stocked(self) -> bool {
        &&& self.bids.dom().finite()
        &&& self.asks.dom().finite()
        &&& levels_positive(self.bids)
        &&& levels_positive(self.asks)
    }

    /// Whether an order of identifier `id` rests on side `side` at `price`.
    pub open spec fn level_holds(self, side: Side, price: u64, id: u128) -> bool {
        self.ladder(side).contains_key(price) && order_ids(self.ladder(side)[price]).contains(id)
    }

    /// Whether `order` rests on side `side` at `price`.
    pub open spec fn rests_at(self, side: Side, price: u64, order: Order) -> bool {
        self.ladder(side).contains_key(price) && self.ladder(side)[price].contains(order)
    }

    /// No bid with liquidity is priced at or above an ask with liquidity.
    pub open spec fn uncrossed(self) -> bool {
        forall|bid: u64, ask: u64|
            #![trigger live(self.bids, bid), live(self.asks, ask)]
            live(self.bids, bid) && live(self.asks, ask) ==> bid < ask
    }

    /// The outcome of matching an incoming order of side `taker`, limit
    /// price `limit` and quantity `qty` against the opposite ladder.
    pub open spec fn matched(self, taker: Side, limit: u64, qty: u64) -> Sweep {
        let levels = self.ladder(taker.opposite());
        sweep(levels, by_priority(levels.dom(), taker.opposite()), taker, limit, qty as nat)
    }

    /// The book after that match, before anything is left to rest.
    pub open spec fn after_match(self, taker: Side, limit: u64, qty: u64) -> BookState {
        self.with_ladder(taker.opposite(), self.matched(taker, limit, qty).levels)
    }

    /// The book with `order` added at the back of the level at `price` on
    /// side `side`; the level is created where the ladder has none.
    pub open spec fn rested(self, side: Side, price: u64, order: Order) -> BookState {
        self.with_ladder(
            side,
            self.ladder(side).insert(price, queue_at(self.ladder(side), price).push(order)),
        )
    }

    /// The identifier given to an order that comes to rest when `candidate`
    /// is proposed for it: the first at or after the candidate that no
    /// resting order carries.
    pub open spec fn fresh_id(self, candidate: u128) -> u128 {
        first_unused(self.ids(), candidate)
    }

    /// The book after the submission of an order: matched against the
    /// opposite side, and what is left of it, if anything, resting at its
    /// own limit price under the identifier found from `candidate`.
    pub open spec fn submitted(self, side: Side, limit: u64, qty: u64, candidate: u128) -> BookState {
        let left = self.matched(side, limit, qty).left;
        let swept = self.after_match(side, limit, qty);
        if left > 0 {
            swept.rested(
                side,
                limit,
                Order { order_id: swept.fresh_id(candidate), qty: left as u64 },
            )
        } else {
            swept
        }
    }

    /// The book after one submission as the book takes it: a submission of
    /// no quantity is refused and changes nothing.
    pub open spec fn accepted(self, step: Submission) -> BookState {
        if step.qty == 0 {
            self
        } else {
            self.submitted(step.side, step.limit, step.qty, step.candidate)
        }
    }

    /// The book after a run of submissions, taken one after the other.
    pub open spec fn after_submissions(self, steps: Seq<Submission>) -> BookState
        decreases steps.len(),
    {
        if steps.len() == 0 {
            self
        } else {
            self.after_submissions(steps.drop_last()).accepted(steps.last())
        }
    }

    /// The book with the order of identifier `id` taken out of its level.
    pub open spec fn cancelled(self, id: u128) -> BookState {
        BookState {
            bids: self.bids.map_values(|q: Seq<Order>| without_order(q, id)),
            asks: self.asks.map_values(|q: Seq<Order>| without_order(q, id)),
        }
    }
}

/// A queue that does not hold the identifier stays as it is when the
/// identifier is taken out.
pub proof fn lemma_without_absent(q: Seq<Order>, id: u128)
    requires
        !order_ids(q).contains(id),
    ensures
        without_order(q, id) == q,
    decreases q.len(),
{
    if q.len() > 0 {
        assert(order_ids(q)[0] == q[0].order_id);
        let rest = q.drop_first();
        assert(!order_ids(rest).contains(id)) by {
            if order_ids(rest).contains(id) {
                let k = choose|k: int| 0 <= k < order_ids(rest).len() && order_ids(rest)[k] == id;
                assert(order_ids(q)[k + 1] == id);
            }
        }
        lemma_without_absent(rest, id);
        assert(seq![q[0]] + rest =~= q);
    }
}

/// Taking out the identifier removes the first order that carries it.
pub proof fn lemma_without_first(q: Seq<Order>, id: u128, pos: int)
    requires
        0 <= pos < q.len(),
        q[pos].order_id == id,
        forall|i: int| 0 <= i < pos ==> (#[trigger] q[i]).order_id != id,
    ensures
        without_order(q, id) == q.remove(pos),
    decreases q.len(),
{
    if pos == 0 {
        assert(q.remove(0) =~= q.drop_first());
    } else {
        let rest = q.drop_first();
        assert(q[0].order_id != id);
        assert forall|i: int| 0 <= i < pos - 1 implies (#[trigger] rest[i]).order_id != id by {
            assert(rest[i] == q[i + 1]);
        }
        lemma_without_first(rest, id, pos - 1);
        assert(seq![q[0]] + rest.remove(pos - 1) =~= q.remove(pos));
    }
}

/// Taking an identifier out of every level of a ladder changes only the
/// level that holds it, which loses the first order that carries it.
pub proof fn lemma_without_in_ladder(
    levels: Map<u64, Seq<Order>>,
    id: u128,
    price: u64,
    pos: int,
)
    requires
        levels.contains_key(price),
        0 <= pos < levels[price].len(),
        levels[price][pos].order_id == id,
        forall|i: int| 0 <= i < pos ==> (#[trigger] levels[price][i]).order_id != id,
        forall|p: u64|
            #[trigger] levels.contains_key(p) && p != price ==> !order_ids(levels[p]).contains(id),
    ensures
        levels.map_values(|q: Seq<Order>| without_order(q, id)) == levels.insert(
            price,
            levels[price].remove(pos),
        ),
{
    let a = levels.map_values(|q: Seq<Order>| without_order(q, id));
    let b = levels.insert(price, levels[price].remove(pos));
    assert forall|p: u64| a.contains_key(p) implies a[p] == b[p] by {
        if p == price {
            lemma_without_first(levels[price], id, pos);
        } else {
            lemma_without_absent(levels[p], id);
        }
    }
    assert(a =~= b);
}

/// Taking an identifier out of a ladder that does not hold it changes
/// nothing.
pub proof fn lemma_without_not_in_ladder(levels: Map<u64, Seq<Order>>, id: u128)
    requires
        forall|p: u64| #[trigger] levels.contains_key(p) ==> !order_ids(levels[p]).contains(id),
    ensures
        levels.map_values(|q: Seq<Order>| without_order(q, id)) == levels,
{
    let a = levels.map_values(|q: Seq<Order>| without_order(q, id));
    assert forall|p: u64| a.contains_key(p) implies a[p] == levels[p] by {
        lemma_without_absent(levels[p], id);
    }
    assert(a =~= levels);
}

/// Quantity is conserved by every submission: the quantities of the fills
/// and the quantity left add up to the quantity submitted.
pub proof fn lemma_submission_conserves_quantity(
    book: BookState,
    side: Side,
    limit: u64,
    qty: u64,
)
    ensures
        filled_qty(book.matched(side, limit, qty).fills) + book.matched(side, limit, qty).left
            == qty,
{
    let levels = book.ladder(side.opposite());
    lemma_sweep_conserves(
        levels,
        by_priority(levels.dom(), side.opposite()),
        side,
        limit,
        qty as nat,
    );
}

/// The identifiers left in a valid queue once `id` is taken out are the
/// others.
pub proof fn lemma_without_ids(q: Seq<Order>, id: u128)
    requires
        queue_valid(q),
    ensures
        forall|other: u128| #[trigger]
            order_ids(without_order(q, id)).contains(other) <==> order_ids(q).contains(other)
                && other != id,
    decreases q.len(),
{
    if !order_ids(q).contains(id) {
        lemma_without_absent(q, id);
    } else {
        let pos = choose|pos: int|
            0 <= pos < order_ids(q).len() && order_ids(q)[pos] == id && forall|i: int|
                0 <= i < pos ==> order_ids(q)[i] != id;
        assert forall|i: int| 0 <= i < pos implies (#[trigger] q[i]).order_id != id by {
            assert(order_ids(q)[i] == q[i].order_id);
        }
        lemma_without_first(q, id, pos);
        assert(order_ids(q.remove(pos)) =~= order_ids(q).remove(pos));
        crate::index::lemma_ids_remove(order_ids(q), pos);
    }
}

/// A cancelled order is gone: after the cancellation no resting order
/// carries its identifier, so that a second cancellation of it finds none.
pub proof fn lemma_cancelled_is_gone(book: BookState, id: u128)
    requires
        book.valid(),
    ensures
        !book.cancelled(id).holds(id),
{
    let after = book.cancelled(id);
    assert forall|side: Side, price: u64| #[trigger]
        after.ladder(side).contains_key(price) implies !order_ids(
        after.ladder(side)[price],
    ).contains(id) by {
        assert(book.ladder(side).contains_key(price));
        lemma_without_ids(book.ladder(side)[price], id);
    }
}

/// Cancelling an identifier that no resting order carries changes nothing.
pub proof fn lemma_cancelled_unknown(book: BookState, id: u128)
    requires
        !book.holds(id),
    ensures
        book.cancelled(id) == book,
{
    assert forall|p: u64| #[trigger] book.bids.contains_key(p) implies !order_ids(
        book.bids[p],
    ).contains(id) by {
        assert(book.ladder(Side::Bid).contains_key(p));
    }
    assert forall|p: u64| #[trigger] book.asks.contains_key(p) implies !order_ids(
        book.asks[p],
    ).contains(id) by {
        assert(book.ladder(Side::Ask).contains_key(p));
    }
    lemma_without_not_in_ladder(book.bids, id);
    lemma_without_not_in_ladder(book.asks, id);
}

/// A submission leaves an uncrossed book uncrossed: what is left of the
/// incoming order comes to rest only after every level that its limit price
/// crosses has been emptied.
pub proof fn lemma_submitted_uncrossed(
    book: BookState,
    side: Side,
    limit: u64,
    qty: u64,
    candidate: u128,
)
    requires
        book.stocked(),
        book.uncrossed(),
    ensures
        book.after_match(side, limit, qty).uncrossed(),
        book.submitted(side, limit, qty, candidate).uncrossed(),
        book.submitted(side, limit, qty, candidate).stocked(),
{
    let maker = side.opposite();
    let levels = book.ladder(maker);
    let prices = by_priority(levels.dom(), maker);
    lemma_ascending_exists(levels.dom());
    lemma_priority_listing(levels.dom(), maker);
    assert forall|i: int| 0 <= i < prices.len() implies levels.contains_key(
        #[trigger] prices[i],
    ) by {
        assert(prices.contains(prices[i]));
    }
    lemma_sweep_properties(levels, prices, side, limit, qty as nat);
    let out = book.matched(side, limit, qty);
    let swept = book.after_match(side, limit, qty);
    assert forall|p: u64| live(out.levels, p) implies live(levels, p) by {
        assert(out.levels.dom().contains(p));
        assert(levels.contains_key(p));
    }
    assert(swept.uncrossed()) by {
        assert forall|bid: u64, ask: u64|
            #![trigger live(swept.bids, bid), live(swept.asks, ask)]
            live(swept.bids, bid) && live(swept.asks, ask) implies bid < ask by {
            assert(live(book.bids, bid) && live(book.asks, ask));
        }
    }
    assert(swept.stocked());
    if out.left > 0 {
        let id = swept.fresh_id(candidate);
        let order = Order { order_id: id, qty: out.left as u64 };
        let after = swept.rested(side, limit, order);
        assert forall|bid: u64, ask: u64|
            #![trigger live(after.bids, bid), live(after.asks, ask)]
            live(after.bids, bid) && live(after.asks, ask) implies bid < ask by {
            let own = if side == Side::Bid { bid } else { ask };
            let other = if side == Side::Bid { ask } else { bid };
            assert(live(out.levels, other));
            if own == limit {
                assert(levels.dom().contains(other));
                assert(prices.contains(other));
                let k = choose|k: int| 0 <= k < prices.len() && prices[k] == other;
                assert(!side.crosses(limit, prices[k]));
            } else {
                assert(live(swept.ladder(side), own));
                assert(live(swept.bids, bid) && live(swept.asks, ask));
            }
        }
        let own_levels = swept.ladder(side);
        let joined = queue_at(own_levels, limit).push(order);
        assert(queue_positive(joined)) by {
            assert forall|i: int| 0 <= i < joined.len() implies (#[trigger] joined[i]).qty
                > 0 by {
                if i < joined.len() - 1 {
                    assert(own_levels.contains_key(limit));
                    assert(joined[i] == own_levels[limit][i]);
                }
            }
        }
        assert(levels_positive(own_levels.insert(limit, joined)));
        assert(after.stocked());
    }
}

/// No run of submissions to an empty book ever leaves it crossed: after
/// each of them every resting bid is priced below every resting ask.
pub proof fn lemma_submissions_never_cross(steps: Seq<Submission>)
    ensures
        BookState::empty().after_submissions(steps).uncrossed(),
        BookState::empty().after_submissions(steps).stocked(),
    decreases steps.len(),
{
    let start = BookState::empty();
    if steps.len() > 0 {
        lemma_submissions_never_cross(steps.drop_last());
        let before = start.after_submissions(steps.drop_last());
        let step = steps.last();
        if step.qty > 0 {
            lemma_submitted_uncrossed(before, step.side, step.limit, step.qty, step.candidate);
        }
    }
}

/// After any run of submissions to an empty book, a best bid and a best
/// ask that both exist do not cross: the best bid is below the best ask.
pub proof fn lemma_best_prices_never_cross(steps: Seq<Submission>, best_bid: u64, best_ask: u64)
    requires
        is_best_price(BookState::empty().after_submissions(steps).bids, Side::Bid, best_bid),
        is_best_price(BookState::empty().after_submissions(steps).asks, Side::Ask, best_ask),
        best_bid != no_price(Side::Bid),
        best_ask != no_price(Side::Ask),
    ensures
        best_bid < best_ask,
{
    lemma_submissions_never_cross(steps);
    lemma_best_bid_below_best_ask(
        BookState::empty().after_submissions(steps),
        best_bid,
        best_ask,
    );
}

/// Taking an order out of an uncrossed book leaves it uncrossed.
pub proof fn lemma_cancelled_uncrossed(book: BookState, id: u128)
    requires
        book.uncrossed(),
    ensures
        book.cancelled(id).uncrossed(),
{
    let after = book.cancelled(id);
    assert forall|q: Seq<Order>| (#[trigger] without_order(q, id)).len() > 0 implies q.len()
        > 0 by {}
    assert forall|bid: u64, ask: u64|
        #![trigger live(after.bids, bid), live(after.asks, ask)]
        live(after.bids, bid) && live(after.asks, ask) implies bid < ask by {
        assert(live(book.bids, bid) && live(book.asks, ask));
    }
}

/// In a book that is not crossed the best bid lies below the best ask
/// whenever both sides have one.
pub proof fn lemma_best_bid_below_best_ask(book: BookState, best_bid: u64, best_ask: u64)
    requires
        book.uncrossed(),
        is_best_price(book.bids, Side::Bid, best_bid),
        is_best_price(book.asks, Side::Ask, best_ask),
        best_bid != no_price(Side::Bid),
        best_ask != no_price(Side::Ask),
    ensures
        best_bid < best_ask,
{
    assert(live(book.bids, best_bid));
    assert(live(book.asks, best_ask));
}

} // verus!
