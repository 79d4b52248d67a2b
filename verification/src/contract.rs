//! The contract instance: one aggregate owning the group configuration,
//! the round state, the defaulter tracker and the defaulter set of the
//! most recently closed round. Every public operation either completes
//! fully or returns an error with the state exactly as it was; the caller
//! performs the transfers and event emissions that the returned outcome
//! describes, all within one host transaction.

use vstd::prelude::*;

use crate::config::{GroupConfig, PayoutStrategy};
use crate::errors::Error;
use crate::membership::{
    all_in, copy_ids, distinct, id_present, lemma_distinct_proper_subset_len, lemma_push_contains,
    lemma_push_distinct, remove_id,
};
use crate::rounds::RoundState;
use crate::schedule::{recipient_index, select_recipient};
use crate::tracker::{count_in, DefaulterTracker, SUSPENSION_THRESHOLD};
use crate::config::resolve_payout_order;
use vstd::pervasive::unreached;

verus! {

/// The abstract state of a contract instance: what every operation's
/// contract is stated over.
#[verifier::ext_equal]
pub ghost struct StateView {
    /// Whether `init` has succeeded on this instance.
    pub initialized: bool,
    /// The identity allowed to close rounds and penalise defaulters.
    pub admin: u64,
    /// The participant identifiers.
    pub members: Seq<u64>,
    /// The payout order, a permutation of the members.
    pub payout_order: Seq<u64>,
    /// The recipient-selection policy.
    pub strategy: PayoutStrategy,
    /// The token amount of one contribution.
    pub contribution_amount: i128,
    /// The length of a round in seconds.
    pub round_duration: u64,
    /// The token amount a defaulter is charged.
    pub penalty_amount: i128,
    /// The index of the current round.
    pub current_round: u32,
    /// Who has paid in the current round, in order of payment.
    pub paid: Seq<u64>,
    /// The instant after which contributions are rejected.
    pub deadline: u64,
    /// The defaulters of the most recently closed round not yet penalised.
    pub last_defaulters: Seq<u64>,
    /// The default counter entries, one per participant with a default.
    pub default_counts: Seq<(u64, u32)>,
    /// The suspended participants.
    pub suspended: Seq<u64>,
}

/// The contract instance.
#[derive(Debug)]
pub struct AhjoorContract {
    /// The immutable parameters; absent until `init` succeeds.
    pub config: Option<GroupConfig>,
    /// The state of the round currently collecting contributions.
    pub round: RoundState,
    /// Default counters and suspensions.
    pub tracker: DefaulterTracker,
    /// The defaulters of the most recently closed round not yet penalised.
    pub last_defaulters: Vec<u64>,
}

impl View for AhjoorContract {
    type V = StateView;

    open spec fn view(&self) -> StateView {
        StateView {
            initialized: self.config is Some,
            admin: self.config->Some_0.admin,
            members: self.config->Some_0.members@,
            payout_order: self.config->Some_0.payout_order@,
            strategy: self.config->Some_0.strategy,
            contribution_amount: self.config->Some_0.contribution_amount,
            round_duration: self.config->Some_0.round_duration,
            penalty_amount: self.config->Some_0.penalty_amount,
            current_round: self.round.current_round,
            paid: self.round.paid@,
            deadline: self.round.deadline,
            last_defaulters: self.last_defaulters@,
            default_counts: self.tracker.counts@,
            suspended: self.tracker.suspended@,
        }
    }
}

/// The state after the shared round reset: one round further, nobody paid,
/// and a deadline one duration after the reset instant. Everything else is
/// untouched.
pub open spec fn after_reset(v: StateView, now: u64) -> StateView {
    StateView {
        current_round: (v.current_round + 1) as u32,
        paid: Seq::<u64>::empty(),
        deadline: (now + v.round_duration) as u64,
        ..v
    }
}

/// The members who have not paid, in member order: the defaulters computed
/// at closure time.
pub open spec fn unpaid_filter(members: Seq<u64>, paid: Seq<u64>) -> Seq<u64> {
    members.filter(|m: u64| !paid.contains(m))
}

/// The check, in documented order, that rejects a contribution: missing
/// authorization, a passed deadline, a stranger, or a repeated payment.
/// `None` means the contribution is accepted.
pub open spec fn contribution_rejection(
    v: StateView,
    contributor: u64,
    authorized: bool,
    now: u64,
) -> Option<Error> {
    if !authorized {
        Some(Error::Unauthorized)
    } else if now > v.deadline {
        Some(Error::DeadlinePassed)
    } else if !v.members.contains(contributor) {
        Some(Error::NotAMember)
    } else if v.paid.contains(contributor) {
        Some(Error::AlreadyPaid)
    } else {
        None
    }
}

/// Whether one more payment makes every member paid for the round.
pub open spec fn fills_round(v: StateView) -> bool {
    v.paid.len() + 1 == v.members.len()
}

/// The check, in documented order, that rejects a closure: missing admin
/// authorization or a deadline still running.
pub open spec fn close_rejection(v: StateView, admin_authorized: bool, now: u64) -> Option<Error> {
    if !admin_authorized {
        Some(Error::Unauthorized)
    } else if now <= v.deadline {
        Some(Error::DeadlineNotPassed)
    } else {
        None
    }
}

/// The check, in documented order, that rejects a penalty: missing admin
/// authorization, penalties disabled, a participant who is not an
/// unpenalised defaulter of the last closure, or missing co-authorization
/// by the penalised participant.
pub open spec fn penalty_rejection(
    v: StateView,
    member: u64,
    admin_authorized: bool,
    member_authorized: bool,
) -> Option<Error> {
    if !admin_authorized {
        Some(Error::Unauthorized)
    } else if v.penalty_amount == 0 {
        Some(Error::PenaltyDisabled)
    } else if !v.last_defaulters.contains(member) {
        Some(Error::NotADefaulter)
    } else if !member_authorized {
        Some(Error::Unauthorized)
    } else {
        None
    }
}

/// What a successful `init` reports: the payload of the initialization
/// event.
#[derive(Clone, Copy, Debug)]
pub struct InitOutcome {
    /// How many participants the group has.
    pub member_count: usize,
    /// The configured per-round contribution amount.
    pub contribution_amount: i128,
}

/// A completed round's payout: the caller transfers `payout` from the pool
/// to `recipient`.
#[derive(Clone, Copy, Debug)]
pub struct RoundCompletion {
    /// The participant receiving the pool.
    pub recipient: u64,
    /// The entire pool balance at payout time, penalties included.
    pub payout: i128,
}

/// What a successful contribution reports: the caller transfers `amount`
/// from the contributor to the pool, and performs the payout if the
/// contribution completed the round.
#[derive(Clone, Copy, Debug)]
pub struct ContributionOutcome {
    /// The round the contribution was recorded in.
    pub round: u32,
    /// The transferred contribution amount.
    pub amount: i128,
    /// The payout, when this contribution was the round's last.
    pub completion: Option<RoundCompletion>,
}

/// What a successful closure reports: the round that ended and who had not
/// paid. No funds move; the pool rolls into the next round.
#[derive(Debug)]
pub struct CloseOutcome {
    /// The index of the round that was closed.
    pub closed_round: u32,
    /// The members who had not paid when the round was closed.
    pub defaulters: Vec<u64>,
}

/// What a successful penalty reports: the caller transfers `penalty` from
/// the member to the pool.
#[derive(Clone, Copy, Debug)]
pub struct PenaltyOutcome {
    /// The round index at the time of the penalty.
    pub round: u32,
    /// The transferred penalty amount.
    pub penalty: i128,
    /// The member's default count after this penalty.
    pub new_count: u32,
    /// Whether this penalty suspended the member just now.
    pub suspended_now: bool,
}

impl AhjoorContract {
    /// Well-formedness. Before initialization everything is at its
    /// default; afterwards the configuration is well formed, the paid and
    /// defaulter sets are duplicate-free member subsets, the tracker is
    /// consistent, and each counter leaves room for one penalty per
    /// closed round.
    pub open spec fn wf(self) -> bool {
        match self.config {
            Option::None => {
                &&& self.round.current_round == 0
                &&& self.round.paid@ == Seq::<u64>::empty()
                &&& self.round.deadline == 0
                &&& self.last_defaulters@ == Seq::<u64>::empty()
                &&& self.tracker.counts@ == Seq::<(u64, u32)>::empty()
                &&& self.tracker.suspended@ == Seq::<u64>::empty()
            },
            Option::Some(cfg) => {
                &&& cfg.wf()
                &&& distinct(self.round.paid@)
                &&& all_in(self.round.paid@, cfg.members@)
                &&& distinct(self.last_defaulters@)
                &&& all_in(self.last_defaulters@, cfg.members@)
                &&& self.tracker.wf()
                &&& all_in(self.tracker.suspended@, cfg.members@)
                &&& self.counts_bounded()
            },
        }
    }

    /// Each participant's default counter, plus one if they may still be
    /// penalised for the last closure, never exceeds the round index: a
    /// participant gains at most one default per closed round.
    pub open spec fn counts_bounded(self) -> bool {
        forall|p: u64|
            #[trigger] count_in(self.tracker.counts@, p) + (if self.last_defaulters@.contains(p) {
                1int
            } else {
                0int
            }) <= self.round.current_round
    }

    /// A contract instance that is not yet initialized.
    pub fn new() -> (c: AhjoorContract)
        ensures
            c.wf(),
            !c@.initialized,
            c@.current_round == 0,
            c@.paid == Seq::<u64>::empty(),
            c@.deadline == 0,
            c@.last_defaulters == Seq::<u64>::empty(),
            c@.default_counts == Seq::<(u64, u32)>::empty(),
            c@.suspended == Seq::<u64>::empty(),
    {
        AhjoorContract {
            config: None,
            round: RoundState::new(),
            tracker: DefaulterTracker::new(),
            last_defaulters: Vec::new(),
        }
    }

    /// One-shot initialization. Resolves the payout order from the
    /// strategy, validates a custom order, and sets up round zero with a
    /// deadline one duration from now. A second call always fails with
    /// `AlreadyInitialized`, whatever its arguments.
    pub fn init(
        &mut self,
        admin: u64,
        members: Vec<u64>,
        contribution_amount: i128,
        round_duration: u64,
        strategy: PayoutStrategy,
        custom_order: Option<Vec<u64>>,
        penalty_amount: i128,
        now: u64,
    ) -> (r: Result<InitOutcome, Error>)
        requires
            old(self).wf(),
            !old(self)@.initialized ==> {
                &&& members@.len() > 0
                &&& distinct(members@)
                &&& contribution_amount > 0
                &&& round_duration > 0
                &&& penalty_amount >= 0
                &&& now + round_duration <= u64::MAX
                &&& strategy is AdminAssigned ==> custom_order is Some
            },
        ensures
            final(self).wf(),
            old(self)@.initialized ==> r == Err::<InitOutcome, Error>(Error::AlreadyInitialized)
                && final(self)@ == old(self)@,
            !old(self)@.initialized ==> match r {
                Ok(out) => {
                    &&& out.member_count == members@.len()
                    &&& out.contribution_amount == contribution_amount
                    &&& final(self)@ == (StateView {
                        initialized: true,
                        admin: admin,
                        members: members@,
                        payout_order: if strategy is RoundRobin {
                            members@
                        } else {
                            custom_order->Some_0@
                        },
                        strategy: strategy,
                        contribution_amount: contribution_amount,
                        round_duration: round_duration,
                        penalty_amount: penalty_amount,
                        current_round: 0,
                        paid: Seq::<u64>::empty(),
                        deadline: (now + round_duration) as u64,
                        last_defaulters: Seq::<u64>::empty(),
                        default_counts: Seq::<(u64, u32)>::empty(),
                        suspended: Seq::<u64>::empty(),
                    })
                },
                Err(e) => {
                    &&& final(self)@ == old(self)@
                    &&& strategy is AdminAssigned
                    &&& e == Error::OrderLengthMismatch || e == Error::OrderNotAPermutation
                    &&& (e == Error::OrderLengthMismatch <==> custom_order->Some_0@.len()
                        != members@.len())
                    &&& e == Error::OrderNotAPermutation ==> !(all_in(
                        custom_order->Some_0@,
                        members@,
                    ) && distinct(custom_order->Some_0@))
                },
            },
    {
        if self.config.is_some() {
            return Err(Error::AlreadyInitialized);
        }
        let payout_order = match resolve_payout_order(strategy, &members, custom_order) {
            Ok(order) => order,
            Err(e) => {
                return Err(e);
            },
        };
        let member_count = members.len();
        self.config = Some(
            GroupConfig {
                admin,
                members,
                strategy,
                payout_order,
                contribution_amount,
                round_duration,
                penalty_amount,
            },
        );
        self.round = RoundState { current_round: 0, paid: Vec::new(), deadline: now + round_duration };
        self.tracker = DefaulterTracker::new();
        self.last_defaulters = Vec::new();
        proof {
            assert forall|p: u64| #[trigger] count_in(self.tracker.counts@, p) + (
            if self.last_defaulters@.contains(p) {
                1int
            } else {
                0int
            }) <= self.round.current_round by {
                assert(count_in(self.tracker.counts@, p) == 0);
            }
            assert(self@ =~= (StateView {
                initialized: true,
                admin: admin,
                members: self@.members,
                payout_order: self@.payout_order,
                strategy: strategy,
                contribution_amount: contribution_amount,
                round_duration: round_duration,
                penalty_amount: penalty_amount,
                current_round: 0,
                paid: Seq::<u64>::empty(),
                deadline: (now + round_duration) as u64,
                last_defaulters: Seq::<u64>::empty(),
                default_counts: Seq::<(u64, u32)>::empty(),
                suspended: Seq::<u64>::empty(),
            }));
        }
        Ok(InitOutcome { member_count, contribution_amount })
    }

    /// Records a contribution of the configured amount by `contributor`.
    /// `authorized` is the surrounding platform's verdict on whether the
    /// caller may act as the contributor, and `pool_balance` the pool's
    /// balance before this contribution. On success the caller transfers
    /// the amount into the pool; when the contribution is the round's
    /// last, the outcome also carries the payout of the entire pool to the
    /// selected recipient, and the round has advanced. At most one
    /// contribution per participant is accepted between two round resets:
    /// a repeated one fails with `AlreadyPaid`.
    pub fn contribute(
        &mut self,
        contributor: u64,
        authorized: bool,
        now: u64,
        pool_balance: i128,
    ) -> (r: Result<ContributionOutcome, Error>)
        requires
            old(self).wf(),
            old(self)@.initialized,
            old(self)@.current_round < u32::MAX,
            now + old(self)@.round_duration <= u64::MAX,
            0 <= pool_balance,
            pool_balance + old(self)@.contribution_amount <= i128::MAX,
        ensures
            final(self).wf(),
            contribution_rejection(old(self)@, contributor, authorized, now) matches Some(e) ==> r
                == Err::<ContributionOutcome, Error>(e) && final(self)@ == old(self)@,
            contribution_rejection(old(self)@, contributor, authorized, now) is None && !fills_round(
                old(self)@,
            ) ==> (r matches Ok(out) && {
                &&& out.round == old(self)@.current_round
                &&& out.amount == old(self)@.contribution_amount
                &&& out.completion is None
                &&& final(self)@ == (StateView { paid: old(self)@.paid.push(contributor), ..old(
                    self,
                )@ })
            }),
            contribution_rejection(old(self)@, contributor, authorized, now) is None && fills_round(
                old(self)@,
            ) ==> match recipient_index(
                old(self)@.payout_order,
                old(self)@.suspended,
                old(self)@.current_round,
            ) {
                Some(i) => r matches Ok(out) && {
                    &&& out.round == old(self)@.current_round
                    &&& out.amount == old(self)@.contribution_amount
                    &&& out.completion == Some(
                        RoundCompletion {
                            recipient: old(self)@.payout_order[i],
                            payout: (pool_balance + old(self)@.contribution_amount) as i128,
                        },
                    )
                    &&& final(self)@ == after_reset(old(self)@, now)
                },
                None => r == Err::<ContributionOutcome, Error>(Error::AllParticipantsSuspended)
                    && final(self)@ == old(self)@,
            },
    {
        if !authorized {
            return Err(Error::Unauthorized);
        }
        if now > self.round.deadline {
            return Err(Error::DeadlinePassed);
        }
        let is_member = match &self.config {
            Some(cfg) => id_present(&cfg.members, contributor),
            None => unreached(),
        };
        if !is_member {
            return Err(Error::NotAMember);
        }
        if id_present(&self.round.paid, contributor) {
            return Err(Error::AlreadyPaid);
        }
        let (amount, member_total) = match &self.config {
            Some(cfg) => (cfg.contribution_amount, cfg.members.len()),
            None => unreached(),
        };
        proof {
            lemma_distinct_proper_subset_len(
                self.round.paid@,
                self.config->Some_0.members@,
                contributor,
            );
        }
        if self.round.paid.len() + 1 < member_total {
            let round = self.round.current_round;
            proof {
                lemma_push_contains(self.round.paid@, contributor);
                lemma_push_distinct(self.round.paid@, contributor);
            }
            self.round.paid.push(contributor);
            return Ok(ContributionOutcome { round, amount, completion: None });
        }
        let round = self.round.current_round;
        match self.complete_round_payout(now, pool_balance + amount) {
            Ok(completion) => Ok(
                ContributionOutcome { round, amount, completion: Some(completion) },
            ),
            Err(e) => Err(e),
        }
    }

    /// Selects the recipient of the current round — skipping suspended
    /// participants, failing with `AllParticipantsSuspended` and no state
    /// change when none is eligible — and advances to the next round. The
    /// caller transfers the whole pot to the recipient.
    fn complete_round_payout(&mut self, now: u64, total_pot: i128) -> (r: Result<
        RoundCompletion,
        Error,
    >)
        requires
            old(self).wf(),
            old(self)@.initialized,
            old(self)@.current_round < u32::MAX,
            now + old(self)@.round_duration <= u64::MAX,
        ensures
            final(self).wf(),
            match recipient_index(
                old(self)@.payout_order,
                old(self)@.suspended,
                old(self)@.current_round,
            ) {
                Some(i) => r matches Ok(c) && c.recipient == old(self)@.payout_order[i]
                    && c.payout == total_pot && final(self)@ == after_reset(old(self)@, now),
                None => r == Err::<RoundCompletion, Error>(Error::AllParticipantsSuspended)
                    && final(self)@ == old(self)@,
            },
    {
        let selected = match &self.config {
            Some(cfg) => select_recipient(
                &cfg.payout_order,
                &self.tracker.suspended,
                self.round.current_round,
            ),
            None => unreached(),
        };
        match selected {
            Ok(recipient) => {
                self.reset_round_state(now);
                Ok(RoundCompletion { recipient, payout: total_pot })
            },
            Err(e) => Err(e),
        }
    }

    /// The shared round reset: one round further, nobody paid, and a
    /// deadline one duration after the reset instant — so a late closure
    /// shifts all later deadlines forward by the same delay.
    fn reset_round_state(&mut self, now: u64)
        requires
            old(self)@.initialized,
            old(self)@.current_round < u32::MAX,
            now + old(self)@.round_duration <= u64::MAX,
        ensures
            final(self)@ == after_reset(old(self)@, now),
            final(self).config == old(self).config,
            final(self).tracker == old(self).tracker,
            final(self).last_defaulters == old(self).last_defaulters,
    {
        let duration = match &self.config {
            Some(cfg) => cfg.round_duration,
            None => unreached(),
        };
        self.round.advance(now, duration);
        proof {
            assert(self@ =~= after_reset(old(self)@, now));
        }
    }

    /// Administrative closure of an expired round: computes the
    /// defaulters, overwrites the defaulter set of the last closure with
    /// them — earlier closures' defaulters are forgotten — and resets the
    /// round. No funds move; the pool rolls into the next round.
    pub fn close_round(&mut self, admin_authorized: bool, now: u64) -> (r: Result<
        CloseOutcome,
        Error,
    >)
        requires
            old(self).wf(),
            old(self)@.initialized,
            old(self)@.current_round < u32::MAX,
            now + old(self)@.round_duration <= u64::MAX,
        ensures
            final(self).wf(),
            close_rejection(old(self)@, admin_authorized, now) matches Some(e) ==> r == Err::<
                CloseOutcome,
                Error,
            >(e) && final(self)@ == old(self)@,
            close_rejection(old(self)@, admin_authorized, now) is None ==> (r matches Ok(out) && {
                &&& out.closed_round == old(self)@.current_round
                &&& out.defaulters@ == unpaid_filter(old(self)@.members, old(self)@.paid)
                &&& final(self)@ == after_reset(
                    (StateView {
                        last_defaulters: unpaid_filter(old(self)@.members, old(self)@.paid),
                        ..old(self)@
                    }),
                    now,
                )
            }),
    {
        if !admin_authorized {
            return Err(Error::Unauthorized);
        }
        if now <= self.round.deadline {
            return Err(Error::DeadlineNotPassed);
        }
        let defaulters = match &self.config {
            Some(cfg) => unpaid_members(&cfg.members, &self.round.paid),
            None => unreached(),
        };
        let closed_round = self.round.current_round;
        self.last_defaulters = copy_ids(&defaulters);
        self.reset_round_state(now);
        proof {
            assert forall|p: u64| #[trigger] count_in(self.tracker.counts@, p) + (
            if self.last_defaulters@.contains(p) {
                1int
            } else {
                0int
            }) <= self.round.current_round by {
                assert(count_in(old(self).tracker.counts@, p) + (
                if old(self).last_defaulters@.contains(p) {
                    1int
                } else {
                    0int
                }) <= old(self).round.current_round);
            }
        }
        Ok(CloseOutcome { closed_round, defaulters })
    }

    /// Penalises `member` for defaulting on the most recently closed
    /// round: the caller transfers the penalty into the pool, the member's
    /// default counter rises by one, and reaching the suspension threshold
    /// suspends the member — exactly once, with `suspended_now` reported
    /// only that one time. The member leaves the defaulter set of the last
    /// closure, so a second penalty without a new closure fails with
    /// `NotADefaulter`. Both the admin's and the member's own
    /// authorization verdicts are required.
    pub fn penalise_defaulter(
        &mut self,
        member: u64,
        admin_authorized: bool,
        member_authorized: bool,
    ) -> (r: Result<PenaltyOutcome, Error>)
        requires
            old(self).wf(),
            old(self)@.initialized,
        ensures
            final(self).wf(),
            penalty_rejection(old(self)@, member, admin_authorized, member_authorized)
                matches Some(e) ==> r == Err::<PenaltyOutcome, Error>(e) && final(self)@ == old(
                self,
            )@,
            penalty_rejection(old(self)@, member, admin_authorized, member_authorized) is None
                ==> (r matches Ok(out) && {
                &&& out.round == old(self)@.current_round
                &&& out.penalty == old(self)@.penalty_amount
                &&& out.new_count == count_in(old(self)@.default_counts, member) + 1
                &&& count_in(final(self)@.default_counts, member) == out.new_count
                &&& forall|q: u64|
                    q != member ==> count_in(final(self)@.default_counts, q) == count_in(
                        old(self)@.default_counts,
                        q,
                    )
                &&& (out.suspended_now <==> out.new_count == SUSPENSION_THRESHOLD)
                &&& out.suspended_now == (out.new_count >= SUSPENSION_THRESHOLD && !old(
                    self,
                )@.suspended.contains(member))
                &&& final(self)@.suspended == if out.suspended_now {
                    old(self)@.suspended.push(member)
                } else {
                    old(self)@.suspended
                }
                &&& !final(self)@.last_defaulters.contains(member)
                &&& forall|q: u64|
                    q != member ==> (final(self)@.last_defaulters.contains(q) <==> old(
                        self,
                    )@.last_defaulters.contains(q))
                &&& final(self)@.last_defaulters.len() == old(self)@.last_defaulters.len() - 1
                &&& final(self)@ == (StateView {
                    last_defaulters: final(self)@.last_defaulters,
                    default_counts: final(self)@.default_counts,
                    suspended: final(self)@.suspended,
                    ..old(self)@
                })
            }),
    {
        if !admin_authorized {
            return Err(Error::Unauthorized);
        }
        let penalty = match &self.config {
            Some(cfg) => cfg.penalty_amount,
            None => unreached(),
        };
        if penalty == 0 {
            return Err(Error::PenaltyDisabled);
        }
        if !id_present(&self.last_defaulters, member) {
            return Err(Error::NotADefaulter);
        }
        if !member_authorized {
            return Err(Error::Unauthorized);
        }
        let round = self.round.current_round;
        proof {
            assert(count_in(self.tracker.counts@, member) + 1int <= self.round.current_round);
            assert(self.tracker.count_of(member) < u32::MAX);
        }
        remove_id(&mut self.last_defaulters, member);
        let (new_count, suspended_now) = self.tracker.record_default(member);
        proof {
            let members = self.config->Some_0.members@;
            assert forall|k: int| 0 <= k < self.last_defaulters@.len() implies members.contains(
                #[trigger] self.last_defaulters@[k],
            ) by {
                assert(old(self).last_defaulters@.contains(self.last_defaulters@[k]));
                let w = choose|w: int|
                    0 <= w < old(self).last_defaulters@.len() && old(self).last_defaulters@[w]
                        == self.last_defaulters@[k];
                assert(members.contains(old(self).last_defaulters@[w]));
            }
            if suspended_now {
                assert(members.contains(member)) by {
                    let w = choose|w: int|
                        0 <= w < old(self).last_defaulters@.len() && old(self).last_defaulters@[w]
                            == member;
                    assert(members.contains(old(self).last_defaulters@[w]));
                }
                assert forall|k: int| 0 <= k < self.tracker.suspended@.len() implies members.contains(
                    #[trigger] self.tracker.suspended@[k],
                ) by {
                    if k < self.tracker.suspended@.len() - 1 {
                        assert(self.tracker.suspended@[k] == old(self).tracker.suspended@[k]);
                    } else {
                        assert(self.tracker.suspended@[k] == member);
                    }
                }
            }
            assert forall|q: u64| q != member implies count_in(self.tracker.counts@, q)
                == count_in(old(self).tracker.counts@, q) by {
                assert(self.tracker.count_of(q) == old(self).tracker.count_of(q));
            }
            assert(count_in(self.tracker.counts@, member) == new_count) by {
                assert(self.tracker.count_of(member) == new_count);
            }
            assert forall|p: u64| #[trigger] count_in(self.tracker.counts@, p) + (
            if self.last_defaulters@.contains(p) {
                1int
            } else {
                0int
            }) <= self.round.current_round by {
                assert(count_in(old(self).tracker.counts@, p) + (
                if old(self).last_defaulters@.contains(p) {
                    1int
                } else {
                    0int
                }) <= old(self).round.current_round);
            }
            assert(self@ =~= (StateView {
                last_defaulters: self@.last_defaulters,
                default_counts: self@.default_counts,
                suspended: self@.suspended,
                ..old(self)@
            }));
        }
        Ok(PenaltyOutcome { round, penalty, new_count, suspended_now })
    }

    /// The read-only state query: the round index, who has paid, the
    /// deadline, and the strategy — their defaults if queried before
    /// initialization. Never fails.
    pub fn get_state(&self) -> (r: (u32, Vec<u64>, u64, PayoutStrategy))
        ensures
            r.0 == self@.current_round,
            r.1@ == self@.paid,
            r.2 == self@.deadline,
            r.3 == if self@.initialized {
                self@.strategy
            } else {
                PayoutStrategy::RoundRobin
            },
    {
        let strategy = match &self.config {
            Some(cfg) => cfg.strategy,
            None => PayoutStrategy::RoundRobin,
        };
        (self.round.current_round, copy_ids(&self.round.paid), self.round.deadline, strategy)
    }
}

/// Computes the members who have not paid, in member order.
fn unpaid_members(members: &Vec<u64>, paid: &Vec<u64>) -> (d: Vec<u64>)
    requires
        distinct(members@),
    ensures
        d@ == unpaid_filter(members@, paid@),
        distinct(d@),
        all_in(d@, members@),
{
    let n = members.len();
    let mut d: Vec<u64> = Vec::new();
    let mut i: usize = 0;
    proof {
        reveal_with_fuel(Seq::<u64>::filter, 2);
        assert(members@.take(0) =~= Seq::<u64>::empty());
        assert(unpaid_filter(members@.take(0), paid@) =~= Seq::<u64>::empty());
    }
    while i < n
        invariant
            i <= n,
            n == members@.len(),
            distinct(members@),
            d@ == unpaid_filter(members@.take(i as int), paid@),
            distinct(d@),
            all_in(d@, members@.take(i as int)),
        decreases n - i,
    {
        let m = members[i];
        proof {
            assert(members@.take(i + 1).drop_last() =~= members@.take(i as int));
            assert(members@.take(i + 1).last() == members@[i as int]);
        }
        if !id_present(paid, m) {
            proof {
                reveal_with_fuel(Seq::<u64>::filter, 2);
                assert(!paid@.contains(m));
                if d@.contains(m) {
                    let w = choose|w: int| 0 <= w < d@.len() && d@[w] == m;
                    assert(members@.take(i as int).contains(d@[w]));
                    let u = choose|u: int| 0 <= u < i && members@.take(i as int)[u] == m;
                    assert(members@[u] == members@[i as int]);
                }
                lemma_push_contains(d@, m);
                lemma_push_distinct(d@, m);
            }
            d.push(m);
            proof {
                assert(d@ == unpaid_filter(members@.take(i + 1), paid@));
                assert forall|k: int| 0 <= k < d@.len() implies members@.take(i + 1).contains(
                    #[trigger] d@[k],
                ) by {
                    if k < d@.len() - 1 {
                        assert(members@.take(i as int).contains(d@[k]));
                        let w = choose|w: int| 0 <= w < i && members@.take(i as int)[w] == d@[k];
                        assert(members@.take(i + 1)[w] == d@[k]);
                    } else {
                        assert(members@.take(i + 1)[i as int] == m);
                    }
                }
            }
        } else {
            proof {
                reveal_with_fuel(Seq::<u64>::filter, 2);
                assert(paid@.contains(m));
                assert(d@ == unpaid_filter(members@.take(i + 1), paid@));
                assert forall|k: int| 0 <= k < d@.len() implies members@.take(i + 1).contains(
                    #[trigger] d@[k],
                ) by {
                    assert(members@.take(i as int).contains(d@[k]));
                    let w = choose|w: int| 0 <= w < i && members@.take(i as int)[w] == d@[k];
                    assert(members@.take(i + 1)[w] == d@[k]);
                }
            }
        }
        i += 1;
    }
    proof {
        assert(members@.take(n as int) =~= members@);
        assert forall|k: int| 0 <= k < d@.len() implies members@.contains(#[trigger] d@[k]) by {
            assert(members@.take(n as int).contains(d@[k]));
        }
    }
    d
}

} // verus!
