//! Matching an incoming order against a whole ladder: the levels are
//! visited best price first for as long as the incoming limit price crosses
//! them and quantity is left.

use crate::queue::{
    filled_from, lemma_queue_after_positive, lemma_queue_after_total, queue_after, queue_positive,
    queue_valid,
};
use crate::types::{filled_qty, Order, Side};
use vstd::prelude::*;

verus! {

/// The outcome of matching an incoming order against a ladder.
pub struct Sweep {
    /// The ladder after the match.
    pub levels: Map<u64, Seq<Order>>,
    /// One `(price, quantity)` entry for each level that traded, in the
    /// order in which the levels were visited.
    pub fills: Seq<(u64, u64)>,
    /// The incoming quantity that did not trade.
    pub left: nat,
}

/// Matches `n` units of an incoming order of side `taker` with limit price
/// `limit` against the ladder `levels`, whose prices `prices` lists best
/// first. The walk ends at the first price that the limit does not cross,
/// when the prices are exhausted, or when nothing is left to match.
pub open spec fn sweep(
    levels: Map<u64, Seq<Order>>,
    prices: Seq<u64>,
    taker: Side,
    limit: u64,
    n: nat,
) -> Sweep
    decreases prices.len(),
{
    if prices.len() == 0 || n == 0 || !taker.crosses(limit, prices[0]) {
        Sweep { levels, fills: Seq::empty(), left: n }
    } else {
        let p = prices[0];
        let traded = filled_from(levels[p], n);
        let rest = sweep(
            levels.insert(p, queue_after(levels[p], n)),
            prices.drop_first(),
            taker,
            limit,
            (n - traded) as nat,
        );
        Sweep {
            levels: rest.levels,
            fills: if traded > 0 {
                seq![(p, traded as u64)] + rest.fills
            } else {
                rest.fills
            },
            left: rest.left,
        }
    }
}

/// `prices` lists prices of a ladder of side `maker` without repetition,
/// each one strictly better than those after it.
pub open spec fn in_priority_order(prices: Seq<u64>, maker: Side) -> bool {
    forall|i: int, j: int|
        0 <= i < j < prices.len() ==> strictly_better(
            maker,
            #[trigger] prices[i],
            #[trigger] prices[j],
        )
}

/// Whether price `a` has priority over price `b` on a ladder of side
/// `maker`: the lower ask, the higher bid.
pub open spec fn strictly_better(maker: Side, a: u64, b: u64) -> bool {
    match maker {
        Side::Ask => a < b,
        Side::Bid => a > b,
    }
}

/// Every level of the ladder is a valid queue.
pub open spec fn levels_valid(levels: Map<u64, Seq<Order>>) -> bool {
    forall|p: u64| #[trigger] levels.contains_key(p) ==> queue_valid(levels[p])
}

/// Every order on the ladder has quantity left.
pub open spec fn levels_positive(levels: Map<u64, Seq<Order>>) -> bool {
    forall|p: u64| #[trigger] levels.contains_key(p) ==> queue_positive(levels[p])
}

/// The quantity of a list of fills with one more fill in front.
pub proof fn lemma_filled_qty_cons(head: (u64, u64), tail: Seq<(u64, u64)>)
    ensures
        filled_qty(seq![head] + tail) == head.1 + filled_qty(tail),
{
    assert((seq![head] + tail).drop_first() =~= tail);
}

/// Quantity is conserved: what traded and what is left add up to the
/// incoming quantity, whatever the ladder holds.
pub proof fn lemma_sweep_conserves(
    levels: Map<u64, Seq<Order>>,
    prices: Seq<u64>,
    taker: Side,
    limit: u64,
    n: nat,
)
    requires
        n <= u64::MAX,
    ensures
        filled_qty(sweep(levels, prices, taker, limit, n).fills) + sweep(
            levels,
            prices,
            taker,
            limit,
            n,
        ).left == n,
    decreases prices.len(),
{
    if prices.len() == 0 || n == 0 || !taker.crosses(limit, prices[0]) {
    } else {
        let p = prices[0];
        let traded = filled_from(levels[p], n);
        let rest = sweep(
            levels.insert(p, queue_after(levels[p], n)),
            prices.drop_first(),
            taker,
            limit,
            (n - traded) as nat,
        );
        lemma_sweep_conserves(
            levels.insert(p, queue_after(levels[p], n)),
            prices.drop_first(),
            taker,
            limit,
            (n - traded) as nat,
        );
        if traded > 0 {
            lemma_filled_qty_cons((p, traded as u64), rest.fills);
        }
    }
}

/// What a match does to a ladder whose orders all have quantity left and
/// whose prices are listed best first.
///
/// The ladder keeps its prices; levels that were not visited are untouched;
/// no level gains orders; every order left has quantity; every fill has a
/// quantity. If quantity is left over, every listed level that the limit
/// crosses has been emptied.
pub proof fn lemma_sweep_properties(
    levels: Map<u64, Seq<Order>>,
    prices: Seq<u64>,
    taker: Side,
    limit: u64,
    n: nat,
)
    requires
        levels_positive(levels),
        in_priority_order(prices, taker.opposite()),
        forall|i: int| 0 <= i < prices.len() ==> levels.contains_key(#[trigger] prices[i]),
        n <= u64::MAX,
    ensures
        sweep(levels, prices, taker, limit, n).left <= n,
        sweep(levels, prices, taker, limit, n).levels.dom() == levels.dom(),
        levels_positive(sweep(levels, prices, taker, limit, n).levels),
        forall|p: u64|
            !prices.contains(p) ==> #[trigger] sweep(levels, prices, taker, limit, n).levels[p]
                == levels[p],
        forall|p: u64|
            levels.contains_key(p) && (#[trigger] sweep(
                levels,
                prices,
                taker,
                limit,
                n,
            ).levels[p]).len() > 0 ==> levels[p].len() > 0,
        sweep(levels, prices, taker, limit, n).left > 0 ==> forall|i: int|
            0 <= i < prices.len() && taker.crosses(limit, #[trigger] prices[i]) ==> sweep(
                levels,
                prices,
                taker,
                limit,
                n,
            ).levels[prices[i]].len() == 0,
        forall|i: int|
            0 <= i < sweep(levels, prices, taker, limit, n).fills.len() ==> (#[trigger] sweep(
                levels,
                prices,
                taker,
                limit,
                n,
            ).fills[i]).1 > 0,
    decreases prices.len(),
{
    let out = sweep(levels, prices, taker, limit, n);
    if prices.len() == 0 || n == 0 {
    } else if !taker.crosses(limit, prices[0]) {
        assert forall|i: int|
            0 <= i < prices.len() && taker.crosses(limit, #[trigger] prices[i]) implies false by {
            if i > 0 {
                assert(strictly_better(taker.opposite(), prices[0], prices[i]));
            }
        }
    } else {
        let p = prices[0];
        let traded = filled_from(levels[p], n);
        let after = queue_after(levels[p], n);
        let levels2 = levels.insert(p, after);
        let tail = prices.drop_first();
        let m = (n - traded) as nat;
        let rest = sweep(levels2, tail, taker, limit, m);
        assert(levels.contains_key(p));
        lemma_queue_after_positive(levels[p], n);
        lemma_queue_after_total(levels[p], n);
        assert(levels_positive(levels2));
        assert forall|i: int, j: int| 0 <= i < j < tail.len() implies strictly_better(
            taker.opposite(),
            #[trigger] tail[i],
            #[trigger] tail[j],
        ) by {
            assert(tail[i] == prices[i + 1] && tail[j] == prices[j + 1]);
        }
        assert forall|i: int| 0 <= i < tail.len() implies levels2.contains_key(
            #[trigger] tail[i],
        ) by {
            assert(tail[i] == prices[i + 1]);
        }
        lemma_sweep_properties(levels2, tail, taker, limit, m);
        assert(levels2.dom() =~= levels.dom());
        assert(!tail.contains(p)) by {
            if tail.contains(p) {
                let k = choose|k: int| 0 <= k < tail.len() && tail[k] == p;
                assert(prices[k + 1] == p);
                assert(strictly_better(taker.opposite(), prices[0], prices[k + 1]));
            }
        }
        assert(out.levels[p] == after);
        assert forall|q: u64| !prices.contains(q) implies #[trigger] out.levels[q]
            == levels[q] by {
            assert(q != p) by {
                assert(prices[0] == p);
            }
            assert(!tail.contains(q)) by {
                if tail.contains(q) {
                    let k = choose|k: int| 0 <= k < tail.len() && tail[k] == q;
                    assert(prices[k + 1] == q);
                }
            }
        }
        assert forall|q: u64|
            levels.contains_key(q) && (#[trigger] out.levels[q]).len() > 0 implies levels[q].len()
            > 0 by {
            if q != p {
                assert(levels2[q] == levels[q]);
            }
        }
        if out.left > 0 {
            assert forall|i: int|
                0 <= i < prices.len() && taker.crosses(
                    limit,
                    #[trigger] prices[i],
                ) implies out.levels[prices[i]].len() == 0 by {
                if i > 0 {
                    assert(tail[i - 1] == prices[i]);
                }
            }
        }
        assert forall|i: int| 0 <= i < out.fills.len() implies (#[trigger] out.fills[i]).1
            > 0 by {
            if traded > 0 && i > 0 {
                assert(out.fills[i] == rest.fills[i - 1]);
            }
        }
    }
}

} // verus!
