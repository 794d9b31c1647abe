//! The order index: from the identifier of each resting order to the side
//! and the handle of the level in which it rests. This module states when
//! the index and the levels agree and shows that each change the book makes
//! to both keeps them in agreement.

use crate::ladder::with_order;
use crate::queue::{consumed_ids, lemma_queue_after_valid, order_ids, queue_after, queue_valid};
use crate::types::{Order, Side};
use vstd::prelude::*;

verus! {

/// The queues of one side out of the two.
pub open spec fn pick(side: Side, asks: Seq<Seq<Order>>, bids: Seq<Seq<Order>>) -> Seq<
    Seq<Order>,
> {
    match side {
        Side::Ask => asks,
        Side::Bid => bids,
    }
}

/// The queues of side `of` after the queue behind `slot` on side `changed`
/// has become `q`.
pub open spec fn replaced(
    of: Side,
    queues: Seq<Seq<Order>>,
    changed: Side,
    slot: int,
    q: Seq<Order>,
) -> Seq<Seq<Order>> {
    if of == changed {
        queues.update(slot, q)
    } else {
        queues
    }
}

/// Every queue of the side is valid, and every order in it is indexed under
/// this side and the handle of its level.
pub open spec fn side_indexed(
    side: Side,
    queues: Seq<Seq<Order>>,
    loc: Map<u128, (Side, usize)>,
) -> bool {
    &&& queues.len() <= usize::MAX
    &&& forall|slot: int| 0 <= slot < queues.len() ==> queue_valid(#[trigger] queues[slot])
    &&& forall|slot: int, id: u128|
        0 <= slot < queues.len() && #[trigger] order_ids(queues[slot]).contains(id)
            ==> loc.contains_key(id) && loc[id] == (side, slot as usize)
}

/// Every entry of the index points at a level that holds the order.
pub open spec fn index_sound(
    asks: Seq<Seq<Order>>,
    bids: Seq<Seq<Order>>,
    loc: Map<u128, (Side, usize)>,
) -> bool {
    forall|id: u128| #[trigger]
        loc.contains_key(id) ==> loc[id].1 < pick(loc[id].0, asks, bids).len() && order_ids(
            pick(loc[id].0, asks, bids)[loc[id].1 as int],
        ).contains(id)
}

/// The index and the levels of both sides agree: an identifier is indexed
/// exactly when an order carrying it rests, and then under the place where
/// it rests.
pub open spec fn index_agrees(
    asks: Seq<Seq<Order>>,
    bids: Seq<Seq<Order>>,
    loc: Map<u128, (Side, usize)>,
) -> bool {
    &&& side_indexed(Side::Ask, asks, loc)
    &&& side_indexed(Side::Bid, bids, loc)
    &&& index_sound(asks, bids, loc)
}

/// The identifiers of a sequence with one more at its end.
pub proof fn lemma_ids_push(s: Seq<u128>, x: u128)
    ensures
        forall|y: u128| #[trigger] s.push(x).contains(y) <==> s.contains(y) || y == x,
        s.no_duplicates() && !s.contains(x) ==> s.push(x).no_duplicates(),
{
    assert forall|y: u128| #[trigger] s.push(x).contains(y) <==> s.contains(y) || y == x by {
        if s.push(x).contains(y) {
            let k = choose|k: int| 0 <= k < s.push(x).len() && s.push(x)[k] == y;
            if k < s.len() {
                assert(s[k] == y);
            }
        }
        if s.contains(y) {
            let k = choose|k: int| 0 <= k < s.len() && s[k] == y;
            assert(s.push(x)[k] == y);
        }
        if y == x {
            assert(s.push(x)[s.len() as int] == y);
        }
    }
}

/// The identifiers of a sequence without repetition after one is removed.
pub proof fn lemma_ids_remove(s: Seq<u128>, pos: int)
    requires
        s.no_duplicates(),
        0 <= pos < s.len(),
    ensures
        s.remove(pos).no_duplicates(),
        forall|y: u128| #[trigger] s.remove(pos).contains(y) <==> s.contains(y) && y != s[pos],
{
    let r = s.remove(pos);
    assert forall|i: int, j: int| 0 <= i < r.len() && 0 <= j < r.len() && i != j implies r[i]
        != r[j] by {
        let a = if i < pos { i } else { i + 1 };
        let b = if j < pos { j } else { j + 1 };
        assert(r[i] == s[a] && r[j] == s[b]);
    }
    assert forall|y: u128| #[trigger] r.contains(y) <==> s.contains(y) && y != s[pos] by {
        if r.contains(y) {
            let k = choose|k: int| 0 <= k < r.len() && r[k] == y;
            let a = if k < pos { k } else { k + 1 };
            assert(s[a] == y);
        }
        if s.contains(y) && y != s[pos] {
            let k = choose|k: int| 0 <= k < s.len() && s[k] == y;
            let a = if k < pos { k } else { k - 1 };
            assert(r[a] == y);
        }
    }
}

/// Matching against one level, and dropping the orders it fills in full
/// from the index, keeps index and levels in agreement.
pub proof fn lemma_index_after_match(
    asks: Seq<Seq<Order>>,
    bids: Seq<Seq<Order>>,
    loc: Map<u128, (Side, usize)>,
    side: Side,
    slot: int,
    n: nat,
)
    requires
        index_agrees(asks, bids, loc),
        0 <= slot < pick(side, asks, bids).len(),
    ensures
        index_agrees(
            replaced(
                Side::Ask,
                asks,
                side,
                slot,
                queue_after(pick(side, asks, bids)[slot], n),
            ),
            replaced(
                Side::Bid,
                bids,
                side,
                slot,
                queue_after(pick(side, asks, bids)[slot], n),
            ),
            loc.remove_keys(consumed_ids(pick(side, asks, bids)[slot], n)),
        ),
{
    let q = pick(side, asks, bids)[slot];
    let after = queue_after(q, n);
    let gone = consumed_ids(q, n);
    let asks2 = replaced(Side::Ask, asks, side, slot, after);
    let bids2 = replaced(Side::Bid, bids, side, slot, after);
    let loc2 = loc.remove_keys(gone);
    assert(queue_valid(q));
    lemma_queue_after_valid(q, n);
    assert forall|of: Side| #[trigger]
        side_indexed(of, pick(of, asks2, bids2), loc2) by {
        let before = pick(of, asks, bids);
        let now = pick(of, asks2, bids2);
        assert(side_indexed(of, before, loc));
        assert forall|s: int| 0 <= s < now.len() implies queue_valid(#[trigger] now[s]) by {
            if !(of == side && s == slot) {
                assert(now[s] == before[s]);
            }
        }
        assert forall|s: int, id: u128|
            0 <= s < now.len() && #[trigger] order_ids(now[s]).contains(
                id,
            ) implies loc2.contains_key(id) && loc2[id] == (of, s as usize) by {
            if of == side && s == slot {
                assert(order_ids(q).contains(id));
                assert(order_ids(before[s]).contains(id));
            } else {
                assert(now[s] == before[s]);
                assert(order_ids(before[s]).contains(id));
                if gone.contains(id) {
                    assert(order_ids(q).contains(id));
                    assert(order_ids(pick(side, asks, bids)[slot]).contains(id));
                    assert(loc[id] == (side, slot as usize));
                }
            }
        }
    }
    assert(side_indexed(Side::Ask, pick(Side::Ask, asks2, bids2), loc2));
    assert(side_indexed(Side::Bid, pick(Side::Bid, asks2, bids2), loc2));
    assert forall|id: u128| #[trigger] loc2.contains_key(id) implies loc2[id].1 < pick(
        loc2[id].0,
        asks2,
        bids2,
    ).len() && order_ids(pick(loc2[id].0, asks2, bids2)[loc2[id].1 as int]).contains(id) by {
        assert(loc.contains_key(id));
        let of = loc[id].0;
        let s = loc[id].1 as int;
        if of == side && s == slot {
            assert(order_ids(q).contains(id));
        } else {
            assert(pick(of, asks2, bids2)[s] == pick(of, asks, bids)[s]);
        }
    }
}

/// A new, empty level on one side disturbs nothing.
pub proof fn lemma_index_after_new_level(
    asks: Seq<Seq<Order>>,
    bids: Seq<Seq<Order>>,
    loc: Map<u128, (Side, usize)>,
    side: Side,
)
    requires
        index_agrees(asks, bids, loc),
        pick(side, asks, bids).len() < usize::MAX,
    ensures
        side == Side::Ask ==> index_agrees(asks.push(Seq::empty()), bids, loc),
        side == Side::Bid ==> index_agrees(asks, bids.push(Seq::empty()), loc),
{
    let asks2 = if side == Side::Ask { asks.push(Seq::empty()) } else { asks };
    let bids2 = if side == Side::Bid { bids.push(Seq::empty()) } else { bids };
    assert forall|of: Side| #[trigger] side_indexed(of, pick(of, asks2, bids2), loc) by {
        let before = pick(of, asks, bids);
        let now = pick(of, asks2, bids2);
        assert(side_indexed(of, before, loc));
        assert forall|s: int| 0 <= s < now.len() implies queue_valid(#[trigger] now[s]) by {
            if s < before.len() {
                assert(now[s] == before[s]);
            } else {
                assert(order_ids(now[s]) =~= Seq::<u128>::empty());
            }
        }
        assert forall|s: int, id: u128|
            0 <= s < now.len() && #[trigger] order_ids(now[s]).contains(
                id,
            ) implies loc.contains_key(id) && loc[id] == (of, s as usize) by {
            if s < before.len() {
                assert(now[s] == before[s]);
                assert(order_ids(before[s]).contains(id));
            } else {
                assert(order_ids(now[s]) =~= Seq::<u128>::empty());
            }
        }
    }
    assert(side_indexed(Side::Ask, pick(Side::Ask, asks2, bids2), loc));
    assert(side_indexed(Side::Bid, pick(Side::Bid, asks2, bids2), loc));
    assert forall|id: u128| #[trigger] loc.contains_key(id) implies loc[id].1 < pick(
        loc[id].0,
        asks2,
        bids2,
    ).len() && order_ids(pick(loc[id].0, asks2, bids2)[loc[id].1 as int]).contains(id) by {
        let of = loc[id].0;
        let s = loc[id].1 as int;
        assert(pick(of, asks2, bids2)[s] == pick(of, asks, bids)[s]);
    }
}

/// An order with an unused identifier, added at the back of a level and
/// entered in the index, keeps index and levels in agreement.
pub proof fn lemma_index_after_rest(
    asks: Seq<Seq<Order>>,
    bids: Seq<Seq<Order>>,
    loc: Map<u128, (Side, usize)>,
    side: Side,
    slot: int,
    order: Order,
)
    requires
        index_agrees(asks, bids, loc),
        0 <= slot < pick(side, asks, bids).len(),
        !loc.contains_key(order.order_id),
        order.qty > 0,
    ensures
        index_agrees(
            replaced(Side::Ask, asks, side, slot, pick(side, asks, bids)[slot].push(order)),
            replaced(Side::Bid, bids, side, slot, pick(side, asks, bids)[slot].push(order)),
            loc.insert(order.order_id, (side, slot as usize)),
        ),
{
    let q = pick(side, asks, bids)[slot];
    let after = q.push(order);
    let asks2 = replaced(Side::Ask, asks, side, slot, after);
    let bids2 = replaced(Side::Bid, bids, side, slot, after);
    let loc2 = loc.insert(order.order_id, (side, slot as usize));
    assert(side_indexed(side, pick(side, asks, bids), loc));
    assert(queue_valid(q));
    assert(order_ids(after) =~= order_ids(q).push(order.order_id));
    lemma_ids_push(order_ids(q), order.order_id);
    assert(!order_ids(q).contains(order.order_id));
    assert(queue_valid(after)) by {
        assert forall|i: int| 0 <= i < after.len() implies (#[trigger] after[i]).qty > 0 by {
            if i < q.len() {
                assert(after[i] == q[i]);
            }
        }
    }
    assert forall|of: Side| #[trigger] side_indexed(of, pick(of, asks2, bids2), loc2) by {
        let before = pick(of, asks, bids);
        let now = pick(of, asks2, bids2);
        assert(side_indexed(of, before, loc));
        assert forall|s: int| 0 <= s < now.len() implies queue_valid(#[trigger] now[s]) by {
            if !(of == side && s == slot) {
                assert(now[s] == before[s]);
            }
        }
        assert forall|s: int, id: u128|
            0 <= s < now.len() && #[trigger] order_ids(now[s]).contains(
                id,
            ) implies loc2.contains_key(id) && loc2[id] == (of, s as usize) by {
            if of == side && s == slot {
                if id != order.order_id {
                    assert(order_ids(before[s]).contains(id));
                }
            } else {
                assert(now[s] == before[s]);
                assert(order_ids(before[s]).contains(id));
            }
        }
    }
    assert(side_indexed(Side::Ask, pick(Side::Ask, asks2, bids2), loc2));
    assert(side_indexed(Side::Bid, pick(Side::Bid, asks2, bids2), loc2));
    assert forall|id: u128| #[trigger] loc2.contains_key(id) implies loc2[id].1 < pick(
        loc2[id].0,
        asks2,
        bids2,
    ).len() && order_ids(pick(loc2[id].0, asks2, bids2)[loc2[id].1 as int]).contains(id) by {
        if id != order.order_id {
            assert(loc.contains_key(id));
            let of = loc[id].0;
            let s = loc[id].1 as int;
            if !(of == side && s == slot) {
                assert(pick(of, asks2, bids2)[s] == pick(of, asks, bids)[s]);
            }
        }
    }
}

/// The same for an order that joins a level which may have been created for
/// it: `is_new` says that the level behind `slot` is new and last.
pub proof fn lemma_index_after_push(
    asks: Seq<Seq<Order>>,
    bids: Seq<Seq<Order>>,
    loc: Map<u128, (Side, usize)>,
    side: Side,
    is_new: bool,
    slot: int,
    order: Order,
)
    requires
        index_agrees(asks, bids, loc),
        is_new ==> slot == pick(side, asks, bids).len() && slot < usize::MAX,
        !is_new ==> 0 <= slot < pick(side, asks, bids).len(),
        !loc.contains_key(order.order_id),
        order.qty > 0,
    ensures
        side == Side::Ask ==> index_agrees(
            with_order(asks, is_new, slot, order),
            bids,
            loc.insert(order.order_id, (side, slot as usize)),
        ),
        side == Side::Bid ==> index_agrees(
            asks,
            with_order(bids, is_new, slot, order),
            loc.insert(order.order_id, (side, slot as usize)),
        ),
{
    let asks1 = if is_new && side == Side::Ask { asks.push(Seq::empty()) } else { asks };
    let bids1 = if is_new && side == Side::Bid { bids.push(Seq::empty()) } else { bids };
    if is_new {
        lemma_index_after_new_level(asks, bids, loc, side);
    }
    lemma_index_after_rest(asks1, bids1, loc, side, slot, order);
}

/// An order taken out of its level, and its identifier out of the index,
/// keeps index and levels in agreement; the identifier is then gone from
/// the index and from every level.
pub proof fn lemma_index_after_cancel(
    asks: Seq<Seq<Order>>,
    bids: Seq<Seq<Order>>,
    loc: Map<u128, (Side, usize)>,
    id: u128,
    pos: int,
)
    requires
        index_agrees(asks, bids, loc),
        loc.contains_key(id),
        0 <= pos < pick(loc[id].0, asks, bids)[loc[id].1 as int].len(),
        pick(loc[id].0, asks, bids)[loc[id].1 as int][pos].order_id == id,
    ensures
        index_agrees(
            replaced(
                Side::Ask,
                asks,
                loc[id].0,
                loc[id].1 as int,
                pick(loc[id].0, asks, bids)[loc[id].1 as int].remove(pos),
            ),
            replaced(
                Side::Bid,
                bids,
                loc[id].0,
                loc[id].1 as int,
                pick(loc[id].0, asks, bids)[loc[id].1 as int].remove(pos),
            ),
            loc.remove(id),
        ),
        forall|i: int|
            0 <= i < pos ==> (#[trigger] pick(loc[id].0, asks, bids)[loc[id].1 as int][i]).order_id
                != id,
{
    let side = loc[id].0;
    let slot = loc[id].1 as int;
    let q = pick(side, asks, bids)[slot];
    let after = q.remove(pos);
    let asks2 = replaced(Side::Ask, asks, side, slot, after);
    let bids2 = replaced(Side::Bid, bids, side, slot, after);
    let loc2 = loc.remove(id);
    assert(side_indexed(side, pick(side, asks, bids), loc));
    assert(queue_valid(q));
    assert(order_ids(q)[pos] == id);
    assert forall|i: int| 0 <= i < pos implies (#[trigger] q[i]).order_id != id by {
        assert(order_ids(q)[i] == q[i].order_id);
    }
    assert(order_ids(after) =~= order_ids(q).remove(pos));
    lemma_ids_remove(order_ids(q), pos);
    assert(queue_valid(after)) by {
        assert forall|i: int| 0 <= i < after.len() implies (#[trigger] after[i]).qty > 0 by {
            let a = if i < pos { i } else { i + 1 };
            assert(after[i] == q[a]);
        }
    }
    assert forall|of: Side| #[trigger] side_indexed(of, pick(of, asks2, bids2), loc2) by {
        let before = pick(of, asks, bids);
        let now = pick(of, asks2, bids2);
        assert(side_indexed(of, before, loc));
        assert forall|s: int| 0 <= s < now.len() implies queue_valid(#[trigger] now[s]) by {
            if !(of == side && s == slot) {
                assert(now[s] == before[s]);
            }
        }
        assert forall|s: int, other: u128|
            0 <= s < now.len() && #[trigger] order_ids(now[s]).contains(
                other,
            ) implies loc2.contains_key(other) && loc2[other] == (of, s as usize) by {
            if of == side && s == slot {
                assert(order_ids(before[s]).contains(other));
            } else {
                assert(now[s] == before[s]);
                assert(order_ids(before[s]).contains(other));
            }
        }
    }
    assert(side_indexed(Side::Ask, pick(Side::Ask, asks2, bids2), loc2));
    assert(side_indexed(Side::Bid, pick(Side::Bid, asks2, bids2), loc2));
    assert forall|other: u128| #[trigger] loc2.contains_key(other) implies loc2[other].1 < pick(
        loc2[other].0,
        asks2,
        bids2,
    ).len() && order_ids(pick(loc2[other].0, asks2, bids2)[loc2[other].1 as int]).contains(
        other,
    ) by {
        assert(loc.contains_key(other));
        let of = loc[other].0;
        let s = loc[other].1 as int;
        if !(of == side && s == slot) {
            assert(pick(of, asks2, bids2)[s] == pick(of, asks, bids)[s]);
        }
    }
}

} // verus!
