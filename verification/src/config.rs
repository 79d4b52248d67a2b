//! Immutable group parameters, fixed at creation: the participant set, the
//! payout order, the contribution amount, the round duration and the
//! penalty amount.

use vstd::prelude::*;

use crate::errors::Error;
use crate::membership::{all_in, copy_ids, distinct, id_present, lemma_contained_set_len};

verus! {

/// How the payout recipient of each round is determined.
#[derive(Clone, Copy, Debug, PartialEq, Eq, Structural)]
pub enum PayoutStrategy {
    /// Participants receive the pool in the order they were listed.
    RoundRobin,
    /// Participants receive the pool in an order the admin assigned.
    AdminAssigned,
}

/// The parameters of a group. Created exactly once; immutable afterward.
#[derive(Clone, Debug)]
pub struct GroupConfig {
    /// The identity allowed to close rounds and penalise defaulters.
    pub admin: u64,
    /// The participant identifiers, all distinct, at least one.
    pub members: Vec<u64>,
    /// The recipient-selection policy the payout order was resolved from.
    pub strategy: PayoutStrategy,
    /// The order in which participants receive the pool: a permutation of
    /// `members`.
    pub payout_order: Vec<u64>,
    /// The token amount each participant pays per round; positive.
    pub contribution_amount: i128,
    /// The length of a round in seconds; positive.
    pub round_duration: u64,
    /// The token amount a defaulter is charged; zero disables penalties.
    pub penalty_amount: i128,
}

impl GroupConfig {
    /// Well-formedness: distinct non-empty members, a payout order that is
    /// a permutation of them, and amounts within their documented ranges.
    pub open spec fn wf(self) -> bool {
        &&& self.members@.len() > 0
        &&& distinct(self.members@)
        &&& self.payout_order@.len() == self.members@.len()
        &&& distinct(self.payout_order@)
        &&& all_in(self.payout_order@, self.members@)
        &&& self.contribution_amount > 0
        &&& self.round_duration > 0
        &&& self.penalty_amount >= 0
    }

    /// The payout order of a well-formed configuration reaches every
    /// participant: it is a bijection onto the member set.
    pub proof fn lemma_order_is_bijection(self)
        requires
            self.wf(),
        ensures
            self.payout_order@.to_set() =~= self.members@.to_set(),
    {
        let order = self.payout_order@;
        let members = self.members@;
        order.unique_seq_to_set();
        lemma_contained_set_len(order.to_set(), members);
        assert forall|x: u64| members.to_set().contains(x) implies order.to_set().contains(x) by {
            assert(order.to_set().len() == members.len());
            assert(members.contains(x));
            assert(order.contains(x));
        }
        assert forall|x: u64| order.to_set().contains(x) implies members.to_set().contains(x) by {
            assert(members.contains(x));
        }
    }
}

/// Checks that `order` is a permutation of `members`: the same length,
/// every entry a member, and no entry repeated. Duplicate entries would
/// pass a plain per-element membership check while breaking the bijection
/// invariant, so they are rejected the same way as foreign entries.
pub fn check_custom_order(order: &Vec<u64>, members: &Vec<u64>) -> (r: Result<(), Error>)
    ensures
        order@.len() != members@.len() ==> r == Err::<(), Error>(Error::OrderLengthMismatch),
        order@.len() == members@.len() && !(all_in(order@, members@) && distinct(order@))
            ==> r == Err::<(), Error>(Error::OrderNotAPermutation),
        order@.len() == members@.len() && all_in(order@, members@) && distinct(order@)
            ==> r == Ok::<(), Error>(()),
{
    if order.len() != members.len() {
        return Err(Error::OrderLengthMismatch);
    }
    let n = order.len();
    let mut i: usize = 0;
    while i < n
        invariant
            i <= n,
            n == order@.len(),
            order@.len() == members@.len(),
            all_in(order@.take(i as int), members@),
            distinct(order@.take(i as int)),
        decreases n - i,
    {
        let entry = order[i];
        if !id_present(members, entry) {
            proof {
                assert(!all_in(order@, members@));
            }
            return Err(Error::OrderNotAPermutation);
        }
        if id_present_prefix(order, i, entry) {
            proof {
                let k = choose|k: int| 0 <= k < i && order@.take(i as int)[k] == entry;
                assert(order@[k] == entry);
                assert(!distinct(order@));
            }
            return Err(Error::OrderNotAPermutation);
        }
        proof {
            assert(order@.take(i + 1).drop_last() =~= order@.take(i as int));
            assert forall|k: int| 0 <= k < i + 1 implies members@.contains(
                #[trigger] order@.take(i + 1)[k],
            ) by {
                if k < i {
                    assert(order@.take(i as int)[k] == order@.take(i + 1)[k]);
                }
            }
            assert forall|p: int, q: int|
                0 <= p < q < i + 1 implies #[trigger] order@.take(i + 1)[p] != #[trigger] order@.take(
                i + 1,
            )[q] by {
                if q == i {
                    assert(order@.take(i as int)[p] == order@[p]);
                } else {
                    assert(order@.take(i as int)[p] == order@.take(i + 1)[p]);
                    assert(order@.take(i as int)[q] == order@.take(i + 1)[q]);
                }
            }
        }
        i += 1;
    }
    proof {
        assert(order@.take(n as int) =~= order@);
    }
    Ok(())
}

/// Whether `x` occurs among the first `end` entries of `v`.
fn id_present_prefix(v: &Vec<u64>, end: usize, x: u64) -> (present: bool)
    requires
        end <= v@.len(),
    ensures
        present == v@.take(end as int).contains(x),
{
    let mut i: usize = 0;
    while i < end
        invariant
            i <= end,
            end <= v@.len(),
            forall|k: int| 0 <= k < i ==> v@[k] != x,
        decreases end - i,
    {
        if v[i] == x {
            proof {
                assert(v@.take(end as int)[i as int] == x);
            }
            return true;
        }
        i += 1;
    }
    proof {
        if v@.take(end as int).contains(x) {
            let k = choose|k: int| 0 <= k < end && v@.take(end as int)[k] == x;
            assert(v@[k] == x);
        }
    }
    false
}

/// Resolves the payout order from the strategy: the members as given for
/// round-robin, or a validated custom order the admin assigned.
pub fn resolve_payout_order(
    strategy: PayoutStrategy,
    members: &Vec<u64>,
    custom_order: Option<Vec<u64>>,
) -> (r: Result<Vec<u64>, Error>)
    requires
        strategy is AdminAssigned ==> custom_order is Some,
    ensures
        match r {
            Ok(order) => {
                &&& strategy is RoundRobin ==> order@ == members@
                &&& strategy is AdminAssigned ==> order@ == custom_order->Some_0@
                &&& order@.len() == members@.len()
                &&& all_in(order@, members@)
                &&& distinct(order@) || !distinct(members@)
            },
            Err(e) => {
                &&& strategy is AdminAssigned
                &&& (e == Error::OrderLengthMismatch || e == Error::OrderNotAPermutation)
                &&& (custom_order->Some_0@.len() != members@.len() <==> e
                    == Error::OrderLengthMismatch)
                &&& e == Error::OrderNotAPermutation ==> !(all_in(custom_order->Some_0@, members@)
                    && distinct(custom_order->Some_0@))
            },
        },
{
    match strategy {
        PayoutStrategy::RoundRobin => {
            let order = copy_ids(members);
            proof {
                assert forall|i: int| 0 <= i < order@.len() implies members@.contains(
                    #[trigger] order@[i],
                ) by {}
            }
            Ok(order)
        },
        PayoutStrategy::AdminAssigned => {
            let order = match custom_order {
                Some(order) => order,
                None => {
                    return Err(Error::OrderNotAPermutation);
                },
            };
            check_custom_order(&order, members)?;
            Ok(order)
        },
    }
}

} // verus!
