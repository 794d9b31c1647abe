//! Order identifiers: 128-bit numbers, drawn at random and made unique
//! within the book by stepping to the next number that no resting order
//! carries.

use vstd::prelude::*;
use vstd::set_lib::lemma_len_subset;

verus! {

/// The identifier `k` steps after `start`, going round from the largest
/// 128-bit number to zero.
pub open spec fn nth_after(start: u128, k: nat) -> u128 {
    if start + k <= u128::MAX {
        (start + k) as u128
    } else {
        (start + k - u128::MAX - 1) as u128
    }
}

/// The number of steps from `start` to the first identifier not in `used`.
#[verifier::opaque]
pub open spec fn steps_to_unused(used: Set<u128>, start: u128) -> nat {
    choose|k: nat|
        !used.contains(nth_after(start, k)) && forall|j: nat|
            j < k ==> used.contains(#[trigger] nth_after(start, j))
}

/// The first identifier at or after `start` that is not in `used`.
pub open spec fn first_unused(used: Set<u128>, start: u128) -> u128 {
    nth_after(start, steps_to_unused(used, start))
}

/// The identifiers reached in fewer than `k` steps from `start`.
pub open spec fn reached(start: u128, k: nat) -> Set<u128> {
    Set::new(|id: u128| exists|j: nat| j < k && id == nth_after(start, j))
}

/// Fewer than 2^128 steps from one start never reach an identifier twice.
pub proof fn lemma_reached_count(start: u128, k: nat)
    requires
        k <= u128::MAX,
    ensures
        reached(start, k).finite(),
        reached(start, k).len() == k,
    decreases k,
{
    if k == 0 {
        assert(reached(start, k) =~= Set::<u128>::empty());
    } else {
        let before = (k - 1) as nat;
        lemma_reached_count(start, before);
        let id = nth_after(start, before);
        assert(!reached(start, before).contains(id));
        assert(reached(start, k) =~= reached(start, before).insert(id)) by {
            assert forall|x: u128| reached(start, k).contains(x) implies reached(
                start,
                before,
            ).insert(id).contains(x) by {
                let j = choose|j: nat| j < k && x == nth_after(start, j);
                if j < before {
                    assert(reached(start, before).contains(x));
                }
            }
            assert forall|x: u128| reached(start, before).insert(id).contains(x) implies reached(
                start,
                k,
            ).contains(x) by {
                if x == id {
                    assert(before < k && x == nth_after(start, before));
                } else {
                    let j = choose|j: nat| j < before && x == nth_after(start, j);
                    assert(j < k && x == nth_after(start, j));
                }
            }
        }
    }
}

/// A run of `k` steps that meets only used identifiers is no longer than
/// the number of used identifiers.
pub proof fn lemma_used_run_is_short(used: Set<u128>, start: u128, k: nat)
    requires
        used.finite(),
        used.len() <= u64::MAX,
        forall|j: nat| j < k ==> used.contains(#[trigger] nth_after(start, j)),
    ensures
        k <= used.len(),
    decreases k,
{
    if k > 0 {
        lemma_used_run_is_short(used, start, (k - 1) as nat);
        lemma_reached_count(start, k);
        assert(reached(start, k).subset_of(used));
        lemma_len_subset(reached(start, k), used);
    }
}

/// What pins down the first unused identifier: it is unused, and every
/// identifier met on the way to it is used.
pub proof fn lemma_first_unused_is(used: Set<u128>, start: u128, k: nat)
    requires
        !used.contains(nth_after(start, k)),
        forall|j: nat| j < k ==> used.contains(#[trigger] nth_after(start, j)),
    ensures
        steps_to_unused(used, start) == k,
        first_unused(used, start) == nth_after(start, k),
        !used.contains(first_unused(used, start)),
{
    reveal(steps_to_unused);
    let found = steps_to_unused(used, start);
    if found < k {
        assert(used.contains(nth_after(start, found)));
    }
    if k < found {
        assert(used.contains(nth_after(start, k)));
    }
}

/// Draws a random identifier with `uuid::Uuid::new_v4` and reads it as a
/// number with `Uuid::as_u128`.
///
/// The contract is taken on trust. It states what the source of `new_v4`
/// shows of every outcome: the four bits of the version are 0100 and the
/// two bits of the variant are 10. Nothing else is known of the number.
/// The call panics where the operating system hands out no random bytes.
#[verifier::external_body]
pub(crate) fn random_order_id() -> (id: u128)
    ensures
        id & 0x0000_0000_0000_f000_c000_0000_0000_0000 == 0x0000_0000_0000_4000_8000_0000_0000_0000,
{
    uuid::Uuid::new_v4().as_u128()
}

} // verus!
