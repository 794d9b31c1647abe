//! One side of the book: a ladder of price levels.
//!
//! The levels live in a vector and are never moved or removed, so the
//! position of a level in that vector is a handle that stays good for the
//! life of the book. A sorted map leads from a price to the handle of its
//! level.

use crate::priority::{at_least_as_good, by_priority, lemma_priority_listing, prices_by_priority};
use crate::queue::{consumed_ids, filled_from, match_at_price_level, queue_after, total_qty};
use crate::state::{is_best_price, live, queue_at};
use crate::sweep::in_priority_order;
use crate::types::{BookError, Order, Side};
use std::collections::BTreeMap;
use std::collections::HashMap;
use std::collections::VecDeque;
use vstd::prelude::*;

verus! {

/// All resting orders at one price, oldest first.
#[derive(Debug)]
pub struct PriceLevel {
    pub(crate) price: u64,
    pub(crate) orders: VecDeque<Order>,
}

/// The price levels of one side of the book.
#[derive(Debug)]
pub struct HalfBook {
    pub(crate) s: Side,
    pub(crate) price_map: BTreeMap<u64, usize>,
    pub(crate) price_levels: Vec<PriceLevel>,
}

/// The handles of a ladder and its levels agree: every price leads to a
/// level of that price, and every level is reached from its own price.
pub open spec fn handles_agree(slots: Map<u64, usize>, prices: Seq<u64>) -> bool {
    &&& forall|p: u64| #[trigger]
        slots.contains_key(p) ==> slots[p] < prices.len() && prices[slots[p] as int] == p
    &&& forall|i: int|
        0 <= i < prices.len() ==> slots.contains_key(#[trigger] prices[i]) && slots[prices[i]]
            == i
}

/// The ladder as a map from each price that has a level to the queue of
/// that level.
pub open spec fn levels_by_price(slots: Map<u64, usize>, queues: Seq<Seq<Order>>) -> Map<
    u64,
    Seq<Order>,
> {
    Map::new(|p: u64| slots.contains_key(p), |p: u64| queues[slots[p] as int])
}

/// Changing the queue behind one handle changes the level of one price.
pub proof fn lemma_levels_update(
    slots: Map<u64, usize>,
    prices: Seq<u64>,
    queues: Seq<Seq<Order>>,
    slot: int,
    q: Seq<Order>,
)
    requires
        handles_agree(slots, prices),
        queues.len() == prices.len(),
        0 <= slot < prices.len(),
    ensures
        levels_by_price(slots, queues.update(slot, q)) == levels_by_price(slots, queues).insert(
            prices[slot],
            q,
        ),
{
    let a = levels_by_price(slots, queues.update(slot, q));
    let b = levels_by_price(slots, queues).insert(prices[slot], q);
    assert(slots.contains_key(prices[slot]));
    assert forall|p: u64| a.contains_key(p) implies a[p] == b[p] by {
        if p != prices[slot] {
            assert(slots[p] != slot);
        }
    }
    assert(a =~= b);
}

/// A new handle for a price that had none adds one empty-or-given level.
pub proof fn lemma_levels_push(
    slots: Map<u64, usize>,
    prices: Seq<u64>,
    queues: Seq<Seq<Order>>,
    price: u64,
    q: Seq<Order>,
)
    requires
        handles_agree(slots, prices),
        queues.len() == prices.len(),
        prices.len() <= usize::MAX,
        !slots.contains_key(price),
    ensures
        handles_agree(slots.insert(price, prices.len() as usize), prices.push(price)),
        levels_by_price(slots.insert(price, prices.len() as usize), queues.push(q))
            == levels_by_price(slots, queues).insert(price, q),
{
    let slots2 = slots.insert(price, prices.len() as usize);
    let prices2 = prices.push(price);
    assert forall|i: int| 0 <= i < prices2.len() implies slots2.contains_key(
        #[trigger] prices2[i],
    ) && slots2[prices2[i]] == i by {
        if i < prices.len() {
            assert(prices2[i] == prices[i]);
        }
    }
    let a = levels_by_price(slots2, queues.push(q));
    let b = levels_by_price(slots, queues).insert(price, q);
    assert forall|p: u64| a.contains_key(p) implies a[p] == b[p] by {
        if p != price {
            assert(slots.contains_key(p));
        }
    }
    assert(a =~= b);
}

/// The queues of a ladder after `order` has joined the back of the level
/// behind `slot`, a level that is new and last where `is_new` holds.
pub open spec fn with_order(
    queues: Seq<Seq<Order>>,
    is_new: bool,
    slot: int,
    order: Order,
) -> Seq<Seq<Order>> {
    let base = if is_new {
        queues.push(Seq::empty())
    } else {
        queues
    };
    base.update(slot, base[slot].push(order))
}

impl View for HalfBook {
    type V = Map<u64, Seq<Order>>;

    /// The levels of the ladder by price.
    open(crate) spec fn view(&self) -> Map<u64, Seq<Order>> {
        levels_by_price(self.slots(), self.queues())
    }
}

impl HalfBook {
    /// The side whose orders rest on this ladder.
    pub open(crate) spec fn side(&self) -> Side {
        self.s
    }

    /// The handle of the level of each price.
    pub open(crate) spec fn slots(&self) -> Map<u64, usize> {
        self.price_map@
    }

    /// The queues of the levels, by handle.
    pub open(crate) spec fn queues(&self) -> Seq<Seq<Order>> {
        self.price_levels@.map_values(|l: PriceLevel| l.orders@)
    }

    /// The prices of the levels, by handle.
    pub open(crate) spec fn slot_prices(&self) -> Seq<u64> {
        self.price_levels@.map_values(|l: PriceLevel| l.price)
    }

    /// The ladder is well formed when its price map and its levels agree.
    pub open(crate) spec fn wf(&self) -> bool {
        handles_agree(self.slots(), self.slot_prices())
    }

    /// The prices of the ladder, best first.
    pub open spec fn priority_prices(&self) -> Seq<u64> {
        by_priority(self@.dom(), self.side())
    }

    /// An empty ladder for orders of side `s`.
    pub fn new(s: Side) -> (ladder: HalfBook)
        ensures
            ladder.wf(),
            ladder.side() == s,
            ladder@ == Map::<u64, Seq<Order>>::empty(),
            ladder.queues().len() == 0,
    {
        let ladder = HalfBook {
            s,
            price_map: BTreeMap::new(),
            price_levels: Vec::with_capacity(5000),
        };
        assert(ladder@ =~= Map::<u64, Seq<Order>>::empty());
        ladder
    }

    /// The handle of the level at `price`, if the ladder has one.
    pub fn location_of(&self, price: u64) -> (slot: Option<usize>)
        requires
            self.wf(),
        ensures
            slot is Some <==> self@.contains_key(price),
            slot matches Some(i) ==> i < self.queues().len() && self.slots()[price] == i
                && self.queues()[i as int] == self@[price],
    {
        match self.price_map.get(&price) {
            Some(slot) => Some(*slot),
            None => None,
        }
    }

    /// The handle of the level at `price`; the level is created, empty, if
    /// the ladder has none yet.
    pub fn ensure_level(&mut self, price: u64) -> (slot: usize)
        requires
            old(self).wf(),
        ensures
            final(self).wf(),
            final(self).side() == old(self).side(),
            final(self)@ == (if old(self)@.contains_key(price) {
                old(self)@
            } else {
                old(self)@.insert(price, Seq::<Order>::empty())
            }),
            slot < final(self).queues().len(),
            final(self).slots() == old(self).slots().insert(price, slot),
            final(self).slot_prices()[slot as int] == price,
            !old(self)@.contains_key(price) ==> slot == old(self).queues().len(),
            final(self).queues() == (if old(self)@.contains_key(price) {
                old(self).queues()
            } else {
                old(self).queues().push(Seq::<Order>::empty())
            }),
    {
        match self.location_of(price) {
            Some(slot) => slot,
            None => {
                let new_loc = self.price_levels.len();
                proof {
                    lemma_levels_push(
                        self.slots(),
                        self.slot_prices(),
                        self.queues(),
                        price,
                        Seq::<Order>::empty(),
                    );
                }
                self.price_map.insert(price, new_loc);
                self.price_levels.push(PriceLevel { price, orders: VecDeque::new() });
                assert(self.slot_prices() =~= old(self).slot_prices().push(price));
                assert(self.queues() =~= old(self).queues().push(Seq::<Order>::empty()));
                new_loc
            },
        }
    }

    /// The quantity resting at `price`. A ladder that has no level at the
    /// price has no answer; a level that is empty rests nothing.
    pub fn get_total_qty(&self, price: u64) -> (total: Result<u128, BookError>)
        requires
            self.wf(),
        ensures
            match total {
                Ok(sum) => self@.contains_key(price) && sum == total_qty(self@[price]),
                Err(e) => e == BookError::UnknownPriceLevel && !self@.contains_key(price),
            },
    {
        match self.location_of(price) {
            None => Err(BookError::UnknownPriceLevel),
            Some(slot) => {
                let level = &self.price_levels[slot].orders;
                let ghost q = level@;
                let mut sum: u128 = 0;
                let mut i: usize = 0;
                assert(q.skip(0) =~= q);
                while i < level.len()
                    invariant
                        i <= q.len(),
                        q == level@,
                        sum + total_qty(q.skip(i as int)) == total_qty(q),
                        sum <= i * u64::MAX,
                    decreases q.len() - i,
                {
                    proof {
                        assert(q.skip(i as int).drop_first() =~= q.skip(i as int + 1));
                        assert((i + 1) * u64::MAX <= u128::MAX) by (nonlinear_arith)
                            requires
                                i < usize::MAX,
                                usize::MAX <= u64::MAX,
                        ;
                        assert((i + 1) * u64::MAX == i * u64::MAX + u64::MAX) by (nonlinear_arith);
                    }
                    sum = sum + level[i].qty as u128;
                    i = i + 1;
                }
                assert(q.skip(i as int) =~= Seq::<Order>::empty());
                Ok(sum)
            },
        }
    }

    /// The orders resting at `price`, oldest first; none where the ladder
    /// has no level at the price.
    pub fn orders_at(&self, price: u64) -> (orders: Vec<Order>)
        requires
            self.wf(),
        ensures
            orders@ == queue_at(self@, price),
    {
        let mut orders: Vec<Order> = Vec::new();
        match self.location_of(price) {
            None => {},
            Some(slot) => {
                let level = &self.price_levels[slot].orders;
                let mut i: usize = 0;
                while i < level.len()
                    invariant
                        i <= level@.len(),
                        orders@ == level@.take(i as int),
                    decreases level@.len() - i,
                {
                    orders.push(level[i]);
                    assert(level@.take(i as int + 1) =~= level@.take(i as int).push(level@[i as int]));
                    i = i + 1;
                }
                assert(level@.take(i as int) =~= level@);
            },
        }
        orders
    }

    /// The prices of the ladder in the order in which matching visits them:
    /// lowest first on the ask side, highest first on the bid side. Every
    /// price that has a level is listed once.
    pub fn prices_in_priority_order(&self) -> (prices: Vec<u64>)
        ensures
            prices@ == self.priority_prices(),
            in_priority_order(prices@, self.side()),
            forall|p: u64| prices@.contains(p) <==> self@.contains_key(p),
    {
        assert(self@.dom() =~= self.price_map@.dom());
        let prices = prices_by_priority(&self.price_map, self.s);
        proof {
            lemma_priority_listing(self@.dom(), self.s);
        }
        prices
    }

    /// Adds `order` at the back of the level at `price`, which is created
    /// if the ladder has none, and returns the handle of that level.
    pub(crate) fn push_order(&mut self, price: u64, order: Order) -> (slot: usize)
        requires
            old(self).wf(),
        ensures
            final(self).wf(),
            final(self).side() == old(self).side(),
            final(self)@ == old(self)@.insert(price, queue_at(old(self)@, price).push(order)),
            slot < final(self).queues().len(),
            final(self).queues() == with_order(
                old(self).queues(),
                !old(self)@.contains_key(price),
                slot as int,
                order,
            ),
            !old(self)@.contains_key(price) ==> slot == old(self).queues().len(),
            old(self)@.contains_key(price) ==> slot < old(self).queues().len(),
            final(self).queues().len() <= usize::MAX,
    {
        let slot = self.ensure_level(price);
        let ghost mid_slots = self.slots();
        let ghost mid_prices = self.slot_prices();
        let ghost mid_queues = self.queues();
        self.price_levels[slot].orders.push_back(order);
        proof {
            assert(self.queues().len() == self.price_levels.len());
            assert(self.slot_prices() =~= mid_prices);
            assert(self.queues() =~= mid_queues.update(
                slot as int,
                mid_queues[slot as int].push(order),
            ));
            lemma_levels_update(
                mid_slots,
                mid_prices,
                mid_queues,
                slot as int,
                mid_queues[slot as int].push(order),
            );
            assert(mid_prices[slot as int] == price);
            assert(self@ =~= old(self)@.insert(price, queue_at(old(self)@, price).push(order)));
        }
        slot
    }

    /// Matches an incoming quantity against the level behind `slot`; the
    /// orders filled in full leave the level and the order index.
    pub(crate) fn match_level(
        &mut self,
        slot: usize,
        incoming: &mut u64,
        order_loc: &mut HashMap<u128, (Side, usize)>,
    ) -> (done: u64)
        requires
            old(self).wf(),
            slot < old(self).queues().len(),
        ensures
            final(self).wf(),
            final(self).side() == old(self).side(),
            final(self).slots() == old(self).slots(),
            final(self).slot_prices() == old(self).slot_prices(),
            final(self).queues() == old(self).queues().update(
                slot as int,
                queue_after(old(self).queues()[slot as int], *old(incoming) as nat),
            ),
            final(self)@ == old(self)@.insert(
                old(self).slot_prices()[slot as int],
                queue_after(old(self).queues()[slot as int], *old(incoming) as nat),
            ),
            done == filled_from(old(self).queues()[slot as int], *old(incoming) as nat),
            *final(incoming) == *old(incoming) - done,
            final(order_loc)@ == old(order_loc)@.remove_keys(
                consumed_ids(old(self).queues()[slot as int], *old(incoming) as nat),
            ),
    {
        let done = match_at_price_level(&mut self.price_levels[slot].orders, incoming, order_loc);
        proof {
            let after = queue_after(old(self).queues()[slot as int], *old(incoming) as nat);
            assert(self.slot_prices() =~= old(self).slot_prices());
            assert(self.queues() =~= old(self).queues().update(slot as int, after));
            lemma_levels_update(
                old(self).slots(),
                old(self).slot_prices(),
                old(self).queues(),
                slot as int,
                after,
            );
        }
        done
    }

    /// Takes the order of identifier `id` out of the level behind `slot`:
    /// the first one that carries it, found at position `pos`.
    pub(crate) fn take_order(&mut self, slot: usize, id: u128) -> (taken: (Order, Ghost<int>))
        requires
            old(self).wf(),
            slot < old(self).queues().len(),
            exists|i: int|
                0 <= i < old(self).queues()[slot as int].len() && (
                #[trigger] old(self).queues()[slot as int][i]).order_id == id,
        ensures
            final(self).wf(),
            final(self).side() == old(self).side(),
            final(self).slots() == old(self).slots(),
            final(self).slot_prices() == old(self).slot_prices(),
            0 <= taken.1@ < old(self).queues()[slot as int].len(),
            taken.0 == old(self).queues()[slot as int][taken.1@],
            taken.0.order_id == id,
            forall|i: int|
                0 <= i < taken.1@ ==> (#[trigger] old(self).queues()[slot as int][i]).order_id
                    != id,
            final(self).queues() == old(self).queues().update(
                slot as int,
                old(self).queues()[slot as int].remove(taken.1@),
            ),
            final(self)@ == old(self)@.insert(
                old(self).slot_prices()[slot as int],
                old(self).queues()[slot as int].remove(taken.1@),
            ),
    {
        let ghost q = self.queues()[slot as int];
        let mut pos: usize = 0;
        assert(q.len() == self.price_levels[slot as int].orders.len());
        while self.price_levels[slot].orders[pos].order_id != id
            invariant
                slot < self.price_levels@.len(),
                q.len() <= usize::MAX,
                q == self.price_levels@[slot as int].orders@,
                pos < q.len(),
                forall|i: int| 0 <= i < pos ==> (#[trigger] q[i]).order_id != id,
                exists|i: int| 0 <= i < q.len() && (#[trigger] q[i]).order_id == id,
            decreases q.len() - pos,
        {
            proof {
                let w = choose|i: int| 0 <= i < q.len() && (#[trigger] q[i]).order_id == id;
                assert(w > pos);
            }
            pos = pos + 1;
        }
        let taken = self.price_levels[slot].orders.remove(pos).unwrap();
        proof {
            assert(self.slot_prices() =~= old(self).slot_prices());
            assert(self.queues() =~= old(self).queues().update(slot as int, q.remove(pos as int)));
            lemma_levels_update(
                old(self).slots(),
                old(self).slot_prices(),
                old(self).queues(),
                slot as int,
                q.remove(pos as int),
            );
        }
        (taken, Ghost(pos as int))
    }

    /// The best price at which orders rest on this ladder: the highest for
    /// bids, the lowest for asks. A ladder on which nothing rests has the
    /// lowest number for its best bid and the highest for its best ask.
    pub fn best_price(&self) -> (best: u64)
        requires
            self.wf(),
        ensures
            is_best_price(self@, self.side(), best),
    {
        let prices = self.prices_in_priority_order();
        let mut i: usize = 0;
        while i < prices.len()
            invariant
                self.wf(),
                i <= prices@.len(),
                in_priority_order(prices@, self.side()),
                forall|p: u64| prices@.contains(p) <==> self@.contains_key(p),
                forall|k: int| 0 <= k < i ==> !live(self@, #[trigger] prices@[k]),
            decreases prices@.len() - i,
        {
            let price = prices[i];
            assert(prices@.contains(price));
            match self.location_of(price) {
                Some(slot) => {
                    if self.price_levels[slot].orders.len() > 0 {
                        proof {
                            assert(live(self@, price));
                            assert forall|p: u64| #[trigger] live(self@, p) implies at_least_as_good(
                                self.side(),
                                price,
                                p,
                            ) by {
                                assert(prices@.contains(p));
                                let k = choose|k: int| 0 <= k < prices@.len() && prices@[k] == p;
                                if k > i {
                                    assert(crate::sweep::strictly_better(
                                        self.side(),
                                        prices@[i as int],
                                        prices@[k],
                                    ));
                                }
                            }
                        }
                        return price;
                    }
                },
                None => {},
            }
            i = i + 1;
        }
        proof {
            assert forall|p: u64| !live(self@, p) by {
                if live(self@, p) {
                    assert(prices@.contains(p));
                    let k = choose|k: int| 0 <= k < prices@.len() && prices@[k] == p;
                    assert(!live(self@, prices@[k]));
                }
            }
        }
        match self.s {
            Side::Bid => u64::MIN,
            Side::Ask => u64::MAX,
        }
    }
}

} // verus!
