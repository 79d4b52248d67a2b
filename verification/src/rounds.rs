//! The mutable per-round state: the monotonically increasing round index,
//! the participants who have paid so far, and the round deadline.

use vstd::prelude::*;

verus! {

/// The state of the round currently collecting contributions.
#[derive(Clone, Debug)]
pub struct RoundState {
    /// The index of the current round, starting at zero.
    pub current_round: u32,
    /// The participants who have paid this round, in order of payment.
    pub paid: Vec<u64>,
    /// The instant after which contributions are rejected.
    pub deadline: u64,
}

impl RoundState {
    /// The state before any round has started.
    pub fn new() -> (s: RoundState)
        ensures
            s.current_round == 0,
            s.paid@ == Seq::<u64>::empty(),
            s.deadline == 0,
    {
        RoundState { current_round: 0, paid: Vec::new(), deadline: 0 }
    }

    /// Moves to the next round: one higher index, nobody paid yet, and a
    /// deadline one duration after the reset instant — late resets shift
    /// later deadlines forward by the same delay.
    pub fn advance(&mut self, now: u64, duration: u64)
        requires
            old(self).current_round < u32::MAX,
            now + duration <= u64::MAX,
        ensures
            final(self).current_round == old(self).current_round + 1,
            final(self).paid@ == Seq::<u64>::empty(),
            final(self).deadline == now + duration,
    {
        self.current_round = self.current_round + 1;
        self.paid = Vec::new();
        self.deadline = now + duration;
    }
}

} // verus!
