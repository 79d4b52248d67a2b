//! Core state machine of a rotating group-savings association.
//!
//! A fixed set of participants takes turns receiving a pooled payout funded
//! by periodic equal contributions. The library keeps the round life cycle:
//! contribution bookkeeping, round closure and reset, payout-recipient
//! selection with suspension-aware skipping, and defaulter, penalty and
//! suspension tracking. Everything here works on plain values; the
//! surrounding platform (durable storage, funds transfer, authorization,
//! clock and event emission) supplies inputs and performs the transfers and
//! emissions that each operation's outcome describes.

pub mod config;
pub mod contract;
pub mod errors;
pub mod laws;
pub mod membership;
pub mod rounds;
pub mod tracker;
pub mod schedule;

pub use config::GroupConfig;
pub use config::PayoutStrategy;
pub use contract::{AhjoorContract, CloseOutcome, ContributionOutcome, InitOutcome, PenaltyOutcome, RoundCompletion, StateView};
pub use errors::Error;
pub use rounds::RoundState;
pub use tracker::DefaulterTracker;
