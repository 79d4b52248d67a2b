//! The failure taxonomy. Every operation fails fast with one of these
//! conditions and leaves the state exactly as it was.

use vstd::prelude::*;

verus! {

/// A named condition on which an operation aborts with no state mutation.
#[derive(Clone, Copy, Debug, PartialEq, Eq, Structural)]
pub enum Error {
    /// Configuration already exists; initialization is strictly one-shot.
    AlreadyInitialized,
    /// A custom payout order differs in length from the participant set.
    OrderLengthMismatch,
    /// A custom payout order is not a permutation of the participant set
    /// (an entry is not a member, or an entry occurs twice).
    OrderNotAPermutation,
    /// The caller or the acted-for identity was not authorized.
    Unauthorized,
    /// A contribution arrived after the round deadline.
    DeadlinePassed,
    /// A closure was attempted before the round deadline expired.
    DeadlineNotPassed,
    /// The contributor is not a participant of the group.
    NotAMember,
    /// The participant already contributed in the current round.
    AlreadyPaid,
    /// The participant is not a defaulter of the most recently closed round.
    NotADefaulter,
    /// Penalties are disabled because the configured amount is zero.
    PenaltyDisabled,
    /// Every entry of the payout order is suspended; no recipient exists.
    AllParticipantsSuspended,
}

} // verus!
