//! Payout-recipient selection: a bounded cyclic scan over the payout order
//! that starts at the round's own slot and skips suspended participants.

use vstd::prelude::*;

use crate::errors::Error;
use crate::membership::id_present;
use vstd::arithmetic::div_mod::{lemma_add_mod_noop_right, lemma_mod_bound, lemma_small_mod};

verus! {

/// The index the scan settles on when it starts at `idx` with `attempts`
/// probes left: `idx` itself if the entry there is not suspended, otherwise
/// the same scan one slot further (cyclically), with one probe fewer.
/// `None` once the probes are exhausted.
pub open spec fn scan_from(
    order: Seq<u64>,
    suspended: Seq<u64>,
    idx: int,
    attempts: nat,
) -> Option<int>
    decreases attempts,
{
    if attempts == 0 {
        None
    } else if !suspended.contains(order[idx]) {
        Some(idx)
    } else {
        scan_from(order, suspended, (idx + 1) % (order.len() as int), (attempts - 1) as nat)
    }
}

/// The index of the recipient of round `round`: the first entry of `order`
/// at or cyclically after slot `round mod |order|` that is not suspended,
/// probing each slot at most once.
pub open spec fn recipient_index(order: Seq<u64>, suspended: Seq<u64>, round: u32) -> Option<int> {
    scan_from(order, suspended, round as int % (order.len() as int), order.len())
}

/// Selects the recipient of round `round` from the payout order, skipping
/// suspended entries; fails only when every entry is suspended.
pub fn select_recipient(order: &Vec<u64>, suspended: &Vec<u64>, round: u32) -> (r: Result<
    u64,
    Error,
>)
    requires
        order@.len() > 0,
    ensures
        match r {
            Ok(p) => {
                &&& recipient_index(order@, suspended@, round) matches Some(i) && p == order@[i]
                &&& !suspended@.contains(p)
            },
            Err(e) => {
                &&& e == Error::AllParticipantsSuspended
                &&& recipient_index(order@, suspended@, round) is None
            },
        },
{
    let n = order.len();
    let mut idx: usize = (round as usize) % n;
    let mut attempts: usize = 0;
    proof {
        lemma_mod_bound(round as int, n as int);
    }
    while attempts < n
        invariant
            0 < n == order@.len(),
            idx < n,
            attempts <= n,
            recipient_index(order@, suspended@, round) == scan_from(
                order@,
                suspended@,
                idx as int,
                (n - attempts) as nat,
            ),
        decreases n - attempts,
    {
        let candidate = order[idx];
        if !id_present(suspended, candidate) {
            return Ok(candidate);
        }
        proof {
            lemma_mod_bound(idx + 1, n as int);
        }
        idx = (idx + 1) % n;
        attempts += 1;
    }
    Err(Error::AllParticipantsSuspended)
}

/// Round-robin selection: when the entry at the round's own slot is not
/// suspended — in particular whenever nothing is suspended — that entry is
/// the recipient: `order[round mod |order|]`.
pub proof fn lemma_round_robin_selection(order: Seq<u64>, suspended: Seq<u64>, round: u32)
    requires
        order.len() > 0,
        !suspended.contains(order[round as int % (order.len() as int)]),
    ensures
        recipient_index(order, suspended, round) == Some(
            round as int % (order.len() as int),
        ),
{
}

/// Exhaustion: when every entry of the payout order is suspended, no scan
/// finds a recipient, whatever slot it starts from.
pub proof fn lemma_all_suspended(order: Seq<u64>, suspended: Seq<u64>, round: u32)
    requires
        order.len() > 0,
        forall|i: int| 0 <= i < order.len() ==> suspended.contains(#[trigger] order[i]),
    ensures
        recipient_index(order, suspended, round) is None,
{
    let n = order.len() as int;
    lemma_mod_bound(round as int, n);
    lemma_scan_all_suspended(order, suspended, round as int % n, n as nat);
}

proof fn lemma_scan_all_suspended(order: Seq<u64>, suspended: Seq<u64>, idx: int, attempts: nat)
    requires
        order.len() > 0,
        0 <= idx < order.len(),
        forall|i: int| 0 <= i < order.len() ==> suspended.contains(#[trigger] order[i]),
    ensures
        scan_from(order, suspended, idx, attempts) is None,
    decreases attempts,
{
    if attempts > 0 {
        lemma_mod_bound(idx + 1, order.len() as int);
        lemma_scan_all_suspended(
            order,
            suspended,
            (idx + 1) % (order.len() as int),
            (attempts - 1) as nat,
        );
    }
}

/// Whether slot `i` of `order` lies `k` slots cyclically after slot
/// `start`, holds a participant who is not suspended, and every slot
/// strictly between `start` and it holds a suspended one.
pub open spec fn first_eligible_after(
    order: Seq<u64>,
    suspended: Seq<u64>,
    start: int,
    k: int,
    i: int,
) -> bool {
    let n = order.len() as int;
    &&& 0 <= k
    &&& i == (start + k) % n
    &&& !suspended.contains(order[i])
    &&& forall|j: int| 0 <= j < k ==> suspended.contains(#[trigger] order[(start + j) % n])
}

/// Suspension skip: the index the scan settles on is the first slot at or
/// cyclically after the round's own slot whose participant is not
/// suspended — the scan advances past suspended entries.
pub proof fn lemma_suspension_skip(order: Seq<u64>, suspended: Seq<u64>, round: u32, i: int)
    requires
        order.len() > 0,
        recipient_index(order, suspended, round) == Some(i),
    ensures
        0 <= i < order.len(),
        !suspended.contains(order[i]),
        exists|k: int|
            k < order.len() && #[trigger] first_eligible_after(
                order,
                suspended,
                round as int % (order.len() as int),
                k,
                i,
            ),
{
    let n = order.len() as int;
    let start = round as int % n;
    lemma_mod_bound(round as int, n);
    lemma_scan_skips_suspended(order, suspended, start, n as nat, i);
}

proof fn lemma_scan_skips_suspended(
    order: Seq<u64>,
    suspended: Seq<u64>,
    idx: int,
    attempts: nat,
    i: int,
)
    requires
        order.len() > 0,
        0 <= idx < order.len(),
        attempts <= order.len(),
        scan_from(order, suspended, idx, attempts) == Some(i),
    ensures
        0 <= i < order.len(),
        !suspended.contains(order[i]),
        exists|k: int| k < attempts && #[trigger] first_eligible_after(order, suspended, idx, k, i),
    decreases attempts,
{
    let n = order.len() as int;
    if !suspended.contains(order[idx]) {
        lemma_small_mod(idx as nat, n as nat);
        assert(first_eligible_after(order, suspended, idx, 0, i));
        assert(0 < attempts);
    } else {
        let next = (idx + 1) % n;
        lemma_mod_bound(idx + 1, n);
        lemma_scan_skips_suspended(order, suspended, next, (attempts - 1) as nat, i);
        let k0 = choose|k0: int|
            k0 < attempts - 1 && #[trigger] first_eligible_after(order, suspended, next, k0, i);
        let k = k0 + 1;
        assert(i == (idx + k) % n) by {
            lemma_add_mod_noop_right(k0, idx + 1, n);
            assert((k0 + (idx + 1) % n) % n == (k0 + (idx + 1)) % n);
            assert((next + k0) % n == (k0 + next) % n);
            assert(k0 + (idx + 1) == idx + k);
        }
        assert forall|j: int| 0 <= j < k implies suspended.contains(
            #[trigger] order[(idx + j) % n],
        ) by {
            if j == 0 {
                lemma_small_mod(idx as nat, n as nat);
            } else {
                assert(suspended.contains(order[(next + (j - 1)) % n]));
                lemma_add_mod_noop_right(j - 1, idx + 1, n);
                assert(((j - 1) + (idx + 1) % n) % n == ((j - 1) + (idx + 1)) % n);
                assert((next + (j - 1)) % n == ((j - 1) + next) % n);
                assert((j - 1) + (idx + 1) == idx + j);
            }
        }
        assert(first_eligible_after(order, suspended, idx, k, i));
        assert(k < attempts);
    }
}

} // verus!
