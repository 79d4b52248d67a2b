//! The library's standing guarantees, each proved once and for all from
//! the operations' contracts and the well-formedness invariant.

use vstd::prelude::*;

use crate::contract::{contribution_rejection, AhjoorContract};
use crate::errors::Error;
use crate::membership::distinct;
use crate::schedule::{lemma_round_robin_selection, recipient_index};
use crate::tracker::{count_in, SUSPENSION_THRESHOLD};

verus! {

/// The payout order of an initialized, well-formed instance is a
/// bijection onto the participant set: the same identifiers, each exactly
/// once, so every participant's turn comes around.
pub proof fn lemma_payout_order_is_permutation(c: AhjoorContract)
    requires
        c.wf(),
        c@.initialized,
    ensures
        c@.payout_order.to_set() =~= c@.members.to_set(),
        c@.payout_order.len() == c@.members.len(),
        distinct(c@.payout_order),
        distinct(c@.members),
{
    c.config->Some_0.lemma_order_is_bijection();
}

/// Per-round uniqueness: whoever is recorded as paid is rejected again —
/// with `AlreadyPaid` when the earlier checks pass — so at most one
/// contribution per participant succeeds between two round resets.
pub proof fn lemma_per_round_uniqueness(c: AhjoorContract, p: u64, authorized: bool, now: u64)
    requires
        c.wf(),
        c@.initialized,
        c@.paid.contains(p),
    ensures
        contribution_rejection(c@, p, authorized, now) is Some,
        authorized && now <= c@.deadline ==> contribution_rejection(c@, p, authorized, now)
            == Some(Error::AlreadyPaid),
{
    if authorized && now <= c@.deadline {
        let w = choose|w: int| 0 <= w < c@.paid.len() && c@.paid[w] == p;
        assert(c@.members.contains(c@.paid[w]));
    }
}

/// Round-robin selection: while nobody is suspended, the recipient of
/// round `r` is `payout_order[r mod |payout_order|]`.
pub proof fn lemma_round_robin_recipient(c: AhjoorContract, r: u32)
    requires
        c.wf(),
        c@.initialized,
        c@.suspended == Seq::<u64>::empty(),
    ensures
        recipient_index(c@.payout_order, c@.suspended, r) == Some(
            r as int % (c@.payout_order.len() as int),
        ),
{
    c.config->Some_0.lemma_order_is_bijection();
    assert(!c@.suspended.contains(c@.payout_order[r as int % (c@.payout_order.len() as int)]));
    lemma_round_robin_selection(c@.payout_order, c@.suspended, r);
}

/// Suspension is exactly the threshold: a well-formed instance suspends a
/// participant if and only if their default counter has reached
/// `SUSPENSION_THRESHOLD` — so the counter's second default suspends, and
/// later defaults find the participant already suspended.
pub proof fn lemma_suspension_matches_threshold(c: AhjoorContract, p: u64)
    requires
        c.wf(),
        c@.initialized,
    ensures
        c@.suspended.contains(p) <==> count_in(c@.default_counts, p) >= SUSPENSION_THRESHOLD,
{
}

} // verus!
