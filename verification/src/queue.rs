//! One price level: a queue of resting orders in order of arrival, and the
//! way an incoming quantity is matched against it.

use crate::types::{Order, Side};
use std::collections::HashMap;
use std::collections::VecDeque;
use vstd::prelude::*;

verus! {

/// The quantity resting in a queue.
pub open spec fn total_qty(q: Seq<Order>) -> nat
    decreases q.len(),
{
    if q.len() == 0 {
        0
    } else {
        q[0].qty as nat + total_qty(q.drop_first())
    }
}

/// The identifiers of the orders of a queue, front first.
pub open spec fn order_ids(q: Seq<Order>) -> Seq<u128> {
    q.map_values(|o: Order| o.order_id)
}

/// Every order of the queue has quantity left.
pub open spec fn queue_positive(q: Seq<Order>) -> bool {
    forall|i: int| 0 <= i < q.len() ==> (#[trigger] q[i]).qty > 0
}

/// A queue as the book keeps it: every order has quantity left and no
/// identifier occurs twice.
pub open spec fn queue_valid(q: Seq<Order>) -> bool {
    &&& queue_positive(q)
    &&& order_ids(q).no_duplicates()
}

/// The order `o` after `n` of its units have traded.
pub open spec fn reduced(o: Order, n: nat) -> Order {
    Order { order_id: o.order_id, qty: (o.qty - n) as u64 }
}

/// The queue after an incoming quantity `n` has been matched against it:
/// orders are taken from the front, each one in full while the incoming
/// quantity covers it; the first that it does not cover stays at the front
/// with what is left of it.
pub open spec fn queue_after(q: Seq<Order>, n: nat) -> Seq<Order>
    decreases q.len(),
{
    if q.len() == 0 || n == 0 {
        q
    } else if q[0].qty <= n {
        queue_after(q.drop_first(), (n - q[0].qty) as nat)
    } else {
        q.update(0, reduced(q[0], n))
    }
}

/// The identifiers of the orders that an incoming quantity `n` fills in
/// full, and that therefore leave the queue.
pub open spec fn consumed_ids(q: Seq<Order>, n: nat) -> Set<u128>
    decreases q.len(),
{
    if q.len() == 0 || n == 0 {
        Set::empty()
    } else if q[0].qty <= n {
        consumed_ids(q.drop_first(), (n - q[0].qty) as nat).insert(q[0].order_id)
    } else {
        Set::empty()
    }
}

/// The quantity that trades when `n` units meet the queue.
pub open spec fn filled_from(q: Seq<Order>, n: nat) -> nat {
    if total_qty(q) <= n {
        total_qty(q)
    } else {
        n
    }
}

/// Matching takes exactly `filled_from` units out of the queue.
pub proof fn lemma_queue_after_total(q: Seq<Order>, n: nat)
    ensures
        total_qty(queue_after(q, n)) + filled_from(q, n) == total_qty(q),
    decreases q.len(),
{
    if q.len() == 0 || n == 0 {
    } else if q[0].qty <= n {
        lemma_queue_after_total(q.drop_first(), (n - q[0].qty) as nat);
    } else {
        let r = q.update(0, reduced(q[0], n));
        assert(r.drop_first() =~= q.drop_first());
    }
}

/// Nothing trades against a queue when nothing comes in.
pub proof fn lemma_queue_after_zero(q: Seq<Order>)
    ensures
        queue_after(q, 0) == q,
        consumed_ids(q, 0) == Set::<u128>::empty(),
        filled_from(q, 0) == 0,
{
}

/// Matching leaves every remaining order with quantity; it empties a queue
/// whose whole quantity the incoming quantity covers, and no other.
pub proof fn lemma_queue_after_positive(q: Seq<Order>, n: nat)
    requires
        queue_positive(q),
    ensures
        queue_positive(queue_after(q, n)),
        total_qty(q) <= n ==> queue_after(q, n).len() == 0,
        total_qty(q) > n ==> queue_after(q, n).len() > 0,
    decreases q.len(),
{
    let r = queue_after(q, n);
    if q.len() == 0 {
    } else if n == 0 {
        assert(q[0].qty > 0);
    } else if q[0].qty <= n {
        let rest = q.drop_first();
        assert forall|i: int| 0 <= i < rest.len() implies (#[trigger] rest[i]).qty > 0 by {
            assert(rest[i] == q[i + 1]);
        }
        lemma_queue_after_positive(rest, (n - q[0].qty) as nat);
    } else {
        assert forall|i: int| 0 <= i < r.len() implies (#[trigger] r[i]).qty > 0 by {
            if i > 0 {
                assert(r[i] == q[i]);
            }
        }
    }
}

/// What matching leaves of a valid queue is a valid queue, holding exactly
/// the orders that were not filled in full.
pub proof fn lemma_queue_after_valid(q: Seq<Order>, n: nat)
    requires
        queue_valid(q),
    ensures
        queue_valid(queue_after(q, n)),
        consumed_ids(q, n).finite(),
        forall|id: u128| #[trigger]
            consumed_ids(q, n).contains(id) ==> order_ids(q).contains(id),
        forall|id: u128| #[trigger]
            order_ids(queue_after(q, n)).contains(id) <==> order_ids(q).contains(id)
                && !consumed_ids(q, n).contains(id),
    decreases q.len(),
{
    let r = queue_after(q, n);
    lemma_queue_after_positive(q, n);
    if q.len() == 0 || n == 0 {
    } else if q[0].qty <= n {
        let rest = q.drop_first();
        let m = (n - q[0].qty) as nat;
        assert(queue_valid(rest)) by {
            assert forall|i: int| 0 <= i < rest.len() implies (#[trigger] rest[i]).qty > 0 by {
                assert(rest[i] == q[i + 1]);
            }
            assert forall|i: int, j: int|
                0 <= i < order_ids(rest).len() && 0 <= j < order_ids(rest).len() && i
                    != j implies order_ids(rest)[i] != order_ids(rest)[j] by {
                assert(order_ids(rest)[i] == order_ids(q)[i + 1]);
                assert(order_ids(rest)[j] == order_ids(q)[j + 1]);
            }
        }
        lemma_queue_after_valid(rest, m);
        assert forall|id: u128| #[trigger]
            consumed_ids(q, n).contains(id) implies order_ids(q).contains(id) by {
            if id == q[0].order_id {
                assert(order_ids(q)[0] == id);
            } else {
                assert(order_ids(rest).contains(id));
                let k = choose|k: int| 0 <= k < order_ids(rest).len() && order_ids(rest)[k] == id;
                assert(order_ids(q)[k + 1] == id);
            }
        }
        assert forall|id: u128| #[trigger]
            order_ids(r).contains(id) <==> order_ids(q).contains(id) && !consumed_ids(
                q,
                n,
            ).contains(id) by {
            if order_ids(r).contains(id) {
                assert(order_ids(rest).contains(id));
                let k = choose|k: int| 0 <= k < order_ids(rest).len() && order_ids(rest)[k] == id;
                assert(order_ids(q)[k + 1] == id);
                assert(order_ids(q)[0] == q[0].order_id);
            }
            if order_ids(q).contains(id) && !consumed_ids(q, n).contains(id) {
                let k = choose|k: int| 0 <= k < order_ids(q).len() && order_ids(q)[k] == id;
                assert(k != 0);
                assert(order_ids(rest)[k - 1] == id);
            }
        }
    } else {
        let head = reduced(q[0], n);
        assert(r =~= q.update(0, head));
        assert(order_ids(r) =~= order_ids(q));
    }
}

/// Time priority within a price: an order is touched only once every order
/// that arrived before it at the same price has been filled in full.
pub proof fn lemma_fifo_within_level(q: Seq<Order>, n: nat, earlier: int, later: int)
    requires
        0 <= earlier < later < q.len(),
        !queue_after(q, n).contains(q[later]),
    ensures
        consumed_ids(q, n).contains(q[earlier].order_id),
        q[earlier].qty <= n,
    decreases q.len(),
{
    if n == 0 {
        assert(queue_after(q, n)[later] == q[later]);
    } else if q[0].qty <= n {
        if earlier > 0 {
            let rest = q.drop_first();
            assert(rest[later - 1] == q[later]);
            assert(rest[earlier - 1] == q[earlier]);
            lemma_fifo_within_level(rest, (n - q[0].qty) as nat, earlier - 1, later - 1);
        }
    } else {
        assert(queue_after(q, n)[later] == q[later]);
    }
}

/// Matches the incoming quantity against one price level, oldest order
/// first. Orders filled in full leave the level and the order index; an
/// order filled in part stays at the front with its quantity reduced. The
/// incoming quantity is reduced by what traded, which is also returned.
pub fn match_at_price_level(
    price_level: &mut VecDeque<Order>,
    incoming_order_qty: &mut u64,
    order_loc: &mut HashMap<u128, (Side, usize)>,
) -> (done_qty: u64)
    ensures
        final(price_level)@ == queue_after(old(price_level)@, *old(incoming_order_qty) as nat),
        done_qty == filled_from(old(price_level)@, *old(incoming_order_qty) as nat),
        *final(incoming_order_qty) == *old(incoming_order_qty) - done_qty,
        final(order_loc)@ == old(order_loc)@.remove_keys(
            consumed_ids(old(price_level)@, *old(incoming_order_qty) as nat),
        ),
{
    let mut done_qty: u64 = 0;
    let ghost start = price_level@;
    let ghost wanted = *incoming_order_qty as nat;
    let ghost index = order_loc@;
    let ghost gone = Set::<u128>::empty();
    assert(order_loc@ =~= index.remove_keys(gone));
    while price_level.len() > 0 && *incoming_order_qty > 0
        invariant
            queue_after(start, wanted) == queue_after(price_level@, *incoming_order_qty as nat),
            consumed_ids(start, wanted) == gone.union(
                consumed_ids(price_level@, *incoming_order_qty as nat),
            ),
            order_loc@ == index.remove_keys(gone),
            done_qty + *incoming_order_qty == wanted,
            wanted <= u64::MAX,
            filled_from(start, wanted) == done_qty + filled_from(
                price_level@,
                *incoming_order_qty as nat,
            ),
        decreases *incoming_order_qty, price_level@.len(),
    {
        let ghost q = price_level@;
        let ghost n = *incoming_order_qty as nat;
        let front = price_level.pop_front().unwrap();
        assert(price_level@ =~= q.drop_first());
        if front.qty <= *incoming_order_qty {
            done_qty = done_qty + front.qty;
            *incoming_order_qty = *incoming_order_qty - front.qty;
            order_loc.remove(&front.order_id);
            proof {
                let rest_ids = consumed_ids(q.drop_first(), (n - front.qty) as nat);
                assert(gone.insert(front.order_id).union(rest_ids) =~= gone.union(
                    rest_ids.insert(front.order_id),
                ));
                assert(order_loc@ =~= index.remove_keys(gone.insert(front.order_id)));
                gone = gone.insert(front.order_id);
            }
        } else {
            let left = Order { order_id: front.order_id, qty: front.qty - *incoming_order_qty };
            price_level.push_front(left);
            done_qty = done_qty + *incoming_order_qty;
            *incoming_order_qty = 0;
            proof {
                assert(left == reduced(q[0], n));
                assert(price_level@ =~= q.update(0, left));
                assert(gone.union(Set::<u128>::empty()) =~= gone);
                assert(total_qty(q) > n);
                lemma_queue_after_zero(price_level@);
            }
        }
    }
    proof {
        if price_level@.len() > 0 {
            lemma_queue_after_zero(price_level@);
        }
        assert(gone.union(Set::<u128>::empty()) =~= gone);
    }
    done_qty
}

} // verus!
