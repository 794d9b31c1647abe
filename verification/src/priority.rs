//! The order in which the prices of a ladder are visited: asks from the
//! lowest price up, bids from the highest price down.

use crate::types::Side;
use std::collections::BTreeMap;
use vstd::prelude::*;
use vstd::std_specs::cmp::OrdSpec;
use vstd::std_specs::iter::IteratorSpec;

verus! {

/// Each price of `s` is below those after it.
pub open spec fn strictly_increasing(s: Seq<u64>) -> bool {
    forall|i: int, j: int| 0 <= i < j < s.len() ==> s[i] < s[j]
}

/// `s` lists exactly the prices of `prices`, each once, lowest first.
pub open spec fn is_ascending_of(s: Seq<u64>, prices: Set<u64>) -> bool {
    &&& strictly_increasing(s)
    &&& forall|p: u64| s.contains(p) <==> prices.contains(p)
}

/// The prices of a finite set, lowest first.
pub open spec fn ascending(prices: Set<u64>) -> Seq<u64> {
    choose|s: Seq<u64>| is_ascending_of(s, prices)
}

/// The prices of a ladder of side `side` in the order of their priority:
/// the best price first.
pub open spec fn by_priority(prices: Set<u64>, side: Side) -> Seq<u64> {
    match side {
        Side::Ask => ascending(prices),
        Side::Bid => ascending(prices).reverse(),
    }
}

/// Whether price `a` is at least as good as price `b` on a ladder of side
/// `side`: lower for asks, higher for bids.
pub open spec fn at_least_as_good(side: Side, a: u64, b: u64) -> bool {
    match side {
        Side::Ask => a <= b,
        Side::Bid => a >= b,
    }
}

/// A set of prices has one ascending listing only.
pub proof fn lemma_ascending_unique(a: Seq<u64>, b: Seq<u64>, prices: Set<u64>)
    requires
        is_ascending_of(a, prices),
        is_ascending_of(b, prices),
    ensures
        a == b,
    decreases a.len(),
{
    if a.len() == 0 {
        if b.len() > 0 {
            assert(b.contains(b[0]));
            assert(a.contains(b[0]));
        }
        assert(a =~= b);
    } else {
        assert(a.contains(a[0]));
        assert(b.contains(a[0]));
        assert(b.contains(b[0]));
        assert(a.contains(b[0]));
        assert(a[0] == b[0]);
        let rest = prices.remove(a[0]);
        let ta = a.drop_first();
        let tb = b.drop_first();
        assert forall|p: u64| ta.contains(p) <==> rest.contains(p) by {
            if ta.contains(p) {
                let k = choose|k: int| 0 <= k < ta.len() && ta[k] == p;
                assert(a[k + 1] == p);
                assert(a.contains(p));
            }
            if rest.contains(p) {
                assert(a.contains(p));
                let k = choose|k: int| 0 <= k < a.len() && a[k] == p;
                assert(ta[k - 1] == p);
            }
        }
        assert forall|p: u64| tb.contains(p) <==> rest.contains(p) by {
            if tb.contains(p) {
                let k = choose|k: int| 0 <= k < tb.len() && tb[k] == p;
                assert(b[k + 1] == p);
                assert(b.contains(p));
            }
            if rest.contains(p) {
                assert(b.contains(p));
                let k = choose|k: int| 0 <= k < b.len() && b[k] == p;
                assert(tb[k - 1] == p);
            }
        }
        lemma_ascending_unique(ta, tb, rest);
        assert(a =~= seq![a[0]] + ta);
        assert(b =~= seq![b[0]] + tb);
    }
}

/// A set of prices that is not empty has a lowest price.
pub proof fn lemma_has_lowest(prices: Set<u64>, some: u64)
    requires
        prices.contains(some),
    ensures
        exists|low: u64| prices.contains(low) && forall|p: u64| prices.contains(p) ==> low <= p,
    decreases some,
{
    if exists|p: u64| prices.contains(p) && p < some {
        let p = choose|p: u64| prices.contains(p) && p < some;
        lemma_has_lowest(prices, p);
    } else {
        assert(prices.contains(some) && forall|p: u64| prices.contains(p) ==> some <= p);
    }
}

/// Every finite set of prices has an ascending listing.
pub proof fn lemma_ascending_exists(prices: Set<u64>)
    requires
        prices.finite(),
    ensures
        is_ascending_of(ascending(prices), prices),
    decreases prices.len(),
{
    if prices.len() == 0 {
        prices.lemma_len0_is_empty();
        let none = Seq::<u64>::empty();
        assert(is_ascending_of(none, prices));
    } else {
        let some = prices.choose();
        lemma_has_lowest(prices, some);
        let low = choose|low: u64|
            prices.contains(low) && forall|p: u64| prices.contains(p) ==> low <= p;
        let rest = prices.remove(low);
        lemma_ascending_exists(rest);
        let tail = ascending(rest);
        let all = seq![low] + tail;
        assert forall|i: int, j: int| 0 <= i < j < all.len() implies all[i] < all[j] by {
            assert(all[j] == tail[j - 1]);
            assert(tail.contains(tail[j - 1]));
            if i > 0 {
                assert(all[i] == tail[i - 1]);
            }
        }
        assert forall|p: u64| all.contains(p) <==> prices.contains(p) by {
            if all.contains(p) {
                let k = choose|k: int| 0 <= k < all.len() && all[k] == p;
                if k > 0 {
                    assert(tail[k - 1] == p);
                    assert(tail.contains(p));
                }
            }
            if prices.contains(p) {
                if p == low {
                    assert(all[0] == p);
                } else {
                    assert(tail.contains(p));
                    let k = choose|k: int| 0 <= k < tail.len() && tail[k] == p;
                    assert(all[k + 1] == p);
                }
            }
        }
        assert(is_ascending_of(all, prices));
    }
}

/// Listed by priority, the prices of a set that has an ascending listing
/// come each once and each before every price that is worse.
pub proof fn lemma_priority_listing(prices: Set<u64>, side: Side)
    requires
        is_ascending_of(ascending(prices), prices),
    ensures
        crate::sweep::in_priority_order(by_priority(prices, side), side),
        forall|p: u64| by_priority(prices, side).contains(p) <==> prices.contains(p),
{
    let up = ascending(prices);
    let listed = by_priority(prices, side);
    match side {
        Side::Ask => {},
        Side::Bid => {
            assert forall|i: int, j: int| 0 <= i < j < listed.len() implies listed[i]
                > listed[j] by {
                assert(listed[i] == up[up.len() - 1 - i]);
                assert(listed[j] == up[up.len() - 1 - j]);
            }
            assert forall|p: u64| listed.contains(p) <==> prices.contains(p) by {
                if listed.contains(p) {
                    let k = choose|k: int| 0 <= k < listed.len() && listed[k] == p;
                    assert(up[up.len() - 1 - k] == p);
                    assert(up.contains(p));
                }
                if prices.contains(p) {
                    assert(up.contains(p));
                    let k = choose|k: int| 0 <= k < up.len() && up[k] == p;
                    assert(listed[up.len() - 1 - k] == p);
                }
            }
        },
    }
}

/// The prices of a price map, lowest first.
pub fn ascending_prices(price_map: &BTreeMap<u64, usize>) -> (out: Vec<u64>)
    ensures
        is_ascending_of(out@, price_map@.dom()),
        out@ == ascending(price_map@.dom()),
{
    broadcast use vstd::std_specs::btree::group_btree_axioms;
    broadcast use vstd::laws_cmp::group_laws_cmp;

    let mut out: Vec<u64> = Vec::new();
    let ghost keys = price_map.keys().remaining();
    for price in it: price_map.keys()
        invariant
            it.seq() == keys,
            out@.len() == it.index(),
            forall|j: int| 0 <= j < out@.len() ==> out@[j] == *it.seq()[j],
    {
        out.push(*price);
    }
    proof {
        vstd::std_specs::btree::axiom_increasing_seq_meaning::<&u64>(keys);
        assert forall|i: int, j: int| 0 <= i < j < out@.len() implies out@[i] < out@[j] by {
            assert(OrdSpec::cmp_spec(&keys[i], &keys[j]) is Less);
        }
        assert(out@ =~= keys.unref());
        assert forall|p: u64| out@.contains(p) <==> price_map@.dom().contains(p) by {
            assert(keys.unref().to_set().contains(p) <==> keys.unref().contains(p));
        }
        assert(is_ascending_of(out@, price_map@.dom()));
        lemma_ascending_unique(out@, ascending(price_map@.dom()), price_map@.dom());
    }
    out
}

/// The prices of a price map in the order of their priority on a ladder of
/// side `side`.
pub fn prices_by_priority(price_map: &BTreeMap<u64, usize>, side: Side) -> (out: Vec<u64>)
    ensures
        out@ == by_priority(price_map@.dom(), side),
        is_ascending_of(ascending(price_map@.dom()), price_map@.dom()),
{
    let up = ascending_prices(price_map);
    match side {
        Side::Ask => up,
        Side::Bid => {
            let mut down: Vec<u64> = Vec::new();
            let mut i: usize = up.len();
            while i > 0
                invariant
                    i <= up@.len(),
                    down@.len() == up@.len() - i,
                    forall|j: int| 0 <= j < down@.len() ==> down@[j] == up@[up@.len() - 1 - j],
                decreases i,
            {
                i = i - 1;
                down.push(up[i]);
            }
            assert(down@ =~= up@.reverse());
            down
        },
    }
}

} // verus!
