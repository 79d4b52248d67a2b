//! Defaulter and penalty tests: penalising defaulters of the last closed
//! round, the suspension threshold, and suspension-aware payout.

use ahjoor_rosca::AhjoorContract;
use ahjoor_rosca::Error;
use ahjoor_rosca::PayoutStrategy;

#[test]
fn test_single_defaulter_penalty() {
    let mut c = AhjoorContract::new();
    let admin: u64 = 100;
    let user1: u64 = 0;
    let user2: u64 = 1;
    let mut balances: Vec<i128> = vec![1000, 1000];
    let mut pool: i128 = 0;
    let penalty_amount: i128 = 50;

    c.init(
        admin,
        vec![user1, user2],
        100,
        3600,
        PayoutStrategy::RoundRobin,
        None,
        penalty_amount,
        0,
    )
    .unwrap();

    // Only user1 contributes
    let out = c.contribute(user1, true, 0, pool).unwrap();
    balances[user1 as usize] -= out.amount;
    pool += out.amount;

    // Wait for deadline to pass
    let close_out = c.close_round(true, 3601).unwrap();
    assert!(!close_out.defaulters.is_empty(), "No events after close_round");

    // Admin penalizes user2 (defaulter) - this should work since user2 didn't contribute
    let pen = c.penalise_defaulter(user2, true, true).unwrap();
    balances[user2 as usize] -= pen.penalty;
    pool += pen.penalty;

    // Check penalty was transferred
    assert_eq!(balances[user2 as usize], 950); // 1000 - 50 penalty
}

#[test]
fn test_multiple_defaulters_penalty() {
    let mut c = AhjoorContract::new();
    let admin: u64 = 100;
    let user1: u64 = 0;
    let user2: u64 = 1;
    let user3: u64 = 2;
    let mut balances: Vec<i128> = vec![1000, 1000, 1000];
    let mut pool: i128 = 0;
    let penalty_amount: i128 = 30;

    c.init(
        admin,
        vec![user1, user2, user3],
        100,
        3600,
        PayoutStrategy::RoundRobin,
        None,
        penalty_amount,
        0,
    )
    .unwrap();

    // Only user1 contributes
    let out = c.contribute(user1, true, 0, pool).unwrap();
    balances[user1 as usize] -= out.amount;
    pool += out.amount;

    c.close_round(true, 3601).unwrap();

    // Admin penalizes both defaulters
    for user in [user2, user3] {
        let pen = c.penalise_defaulter(user, true, true).unwrap();
        balances[user as usize] -= pen.penalty;
        pool += pen.penalty;
    }

    assert_eq!(balances[user2 as usize], 970); // 1000 - 30 penalty
    assert_eq!(balances[user3 as usize], 970); // 1000 - 30 penalty
}

#[test]
fn test_member_suspension_after_two_defaults() {
    let mut c = AhjoorContract::new();
    let admin: u64 = 100;
    let user1: u64 = 0;
    let user2: u64 = 1;
    let mut balances: Vec<i128> = vec![2000, 2000];
    let mut pool: i128 = 0;
    let penalty_amount: i128 = 25;

    c.init(
        admin,
        vec![user1, user2],
        100,
        3600,
        PayoutStrategy::RoundRobin,
        None,
        penalty_amount,
        0,
    )
    .unwrap();

    // ROUND 0: user2 defaults
    let out = c.contribute(user1, true, 0, pool).unwrap();
    balances[user1 as usize] -= out.amount;
    pool += out.amount;
    c.close_round(true, 3601).unwrap();
    let pen = c.penalise_defaulter(user2, true, true).unwrap();
    balances[user2 as usize] -= pen.penalty;
    pool += pen.penalty;
    assert_eq!(pen.new_count, 1);
    assert!(!pen.suspended_now);

    // ROUND 1: user2 defaults again
    // After close_round, new deadline is set to current_timestamp + duration
    // So at 3601, new deadline would be 3601 + 3600 = 7201
    let out = c.contribute(user1, true, 4000, pool).unwrap();
    balances[user1 as usize] -= out.amount;
    pool += out.amount;
    c.close_round(true, 7202).unwrap(); // Past the new deadline
    let pen = c.penalise_defaulter(user2, true, true).unwrap();
    balances[user2 as usize] -= pen.penalty;
    pool += pen.penalty;
    assert_eq!(pen.new_count, 2);
    assert!(pen.suspended_now);

    // Check penalties were applied twice
    assert_eq!(balances[user2 as usize], 1950); // 2000 - 25 - 25
}

#[test]
fn test_suspended_member_skipped_in_payout() {
    let mut c = AhjoorContract::new();
    let admin: u64 = 100;
    let user1: u64 = 0;
    let user2: u64 = 1;
    let user3: u64 = 2;
    let mut balances: Vec<i128> = vec![3000, 3000, 3000];
    let mut pool: i128 = 0;
    let penalty_amount: i128 = 20;

    c.init(
        admin,
        vec![user1, user2, user3],
        100,
        3600,
        PayoutStrategy::RoundRobin,
        None,
        penalty_amount,
        0,
    )
    .unwrap();

    // Suspend user2 by making them default twice
    // ROUND 0: user2 defaults
    for user in [user1, user3] {
        let out = c.contribute(user, true, 0, pool).unwrap();
        balances[user as usize] -= out.amount;
        pool += out.amount;
    }
    c.close_round(true, 3601).unwrap();
    let pen = c.penalise_defaulter(user2, true, true).unwrap();
    balances[user2 as usize] -= pen.penalty;
    pool += pen.penalty;

    // ROUND 1: user2 defaults again (gets suspended)
    for user in [user1, user3] {
        let out = c.contribute(user, true, 4000, pool).unwrap();
        balances[user as usize] -= out.amount;
        pool += out.amount;
    }
    c.close_round(true, 7202).unwrap();
    let pen = c.penalise_defaulter(user2, true, true).unwrap();
    balances[user2 as usize] -= pen.penalty;
    pool += pen.penalty;
    assert!(pen.suspended_now);

    // ROUND 2: All contribute; round 2 (2 % 3 = 2) is user3's turn, and
    // user3 is not suspended, so user3 receives the payout including all
    // accumulated penalty funds
    let balance_before = balances[user3 as usize];
    for user in [user1, user2, user3] {
        let out = c.contribute(user, true, 8000, pool).unwrap();
        balances[user as usize] -= out.amount;
        pool += out.amount;
        if let Some(done) = out.completion {
            assert_eq!(done.recipient, user3);
            balances[done.recipient as usize] += done.payout;
            pool -= done.payout;
        }
    }

    let payout_received = balances[user3 as usize] - balance_before + 100;
    assert!(
        payout_received > 300,
        "Payout should include penalty funds, got: {}",
        payout_received
    );
}

#[test]
fn test_cannot_penalise_before_deadline() {
    let mut c = AhjoorContract::new();
    let admin: u64 = 100;
    let user1: u64 = 0;

    c.init(
        admin,
        vec![user1],
        100,
        3600,
        PayoutStrategy::RoundRobin,
        None,
        50,
        0,
    )
    .unwrap();

    // Try to penalise before any round is closed (no defaulters identified yet)
    let result = c.penalise_defaulter(user1, true, true);
    assert_eq!(result.unwrap_err(), Error::NotADefaulter);
}

#[test]
fn test_penalty_disabled_when_amount_zero() {
    let mut c = AhjoorContract::new();
    let admin: u64 = 100;
    let user1: u64 = 0;

    c.init(
        admin,
        vec![user1],
        100,
        3600,
        PayoutStrategy::RoundRobin,
        None,
        0, // penalty_amount disabled
        0,
    )
    .unwrap();

    c.close_round(true, 3601).unwrap();
    let result = c.penalise_defaulter(user1, true, true);
    assert_eq!(result.unwrap_err(), Error::PenaltyDisabled);
}

#[test]
fn test_cannot_penalise_non_defaulter() {
    let mut c = AhjoorContract::new();
    let admin: u64 = 100;
    let user1: u64 = 0;
    let user2: u64 = 1;
    let mut pool: i128 = 0;

    c.init(
        admin,
        vec![user1, user2],
        100,
        3600,
        PayoutStrategy::RoundRobin,
        None,
        50,
        0,
    )
    .unwrap();

    // Both users contribute (no defaulters)
    for user in [user1, user2] {
        let out = c.contribute(user, true, 0, pool).unwrap();
        pool += out.amount;
        if let Some(done) = out.completion {
            pool -= done.payout;
        }
    }

    // Try to penalise user1 who contributed
    let result = c.penalise_defaulter(user1, true, true);
    assert_eq!(result.unwrap_err(), Error::NotADefaulter);
}
