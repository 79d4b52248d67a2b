//! Payout-strategy tests: round-robin and admin-assigned orders over
//! whole cycles, order validation, and the outcome payloads that drive
//! event emission.

use ahjoor_rosca::AhjoorContract;
use ahjoor_rosca::Error;
use ahjoor_rosca::PayoutStrategy;

#[test]
fn test_admin_assigned_strategy_execution() {
    let mut c = AhjoorContract::new();
    let admin: u64 = 100;
    let user1: u64 = 0;
    let user2: u64 = 1;
    let mut balances: Vec<i128> = vec![100, 100];
    let mut pool: i128 = 0;

    // Reverse the order: user2 should get paid first
    c.init(
        admin,
        vec![user1, user2],
        100,
        3600,
        PayoutStrategy::AdminAssigned,
        Some(vec![user2, user1]),
        0,
        0,
    )
    .unwrap();

    let out = c.contribute(user1, true, 0, pool).unwrap();
    balances[user1 as usize] -= out.amount;
    pool += out.amount;
    assert!(out.completion.is_none());

    let out = c.contribute(user2, true, 0, pool).unwrap();
    balances[user2 as usize] -= out.amount;
    pool += out.amount;
    let done = out.completion.unwrap();
    balances[done.recipient as usize] += done.payout;
    pool -= done.payout;

    // User2 contributed 100, but was the recipient of the pot (200)
    assert_eq!(balances[user2 as usize], 200);
    assert_eq!(pool, 0);
}

#[test]
fn test_invalid_admin_order_validation() {
    let mut c = AhjoorContract::new();
    let admin: u64 = 100;

    // Too short
    let result = c.init(
        admin,
        vec![0, 1],
        100,
        3600,
        PayoutStrategy::AdminAssigned,
        Some(vec![0]),
        0,
        0,
    );
    assert_eq!(result.unwrap_err(), Error::OrderLengthMismatch);
}

#[test]
fn test_round_robin_e2e_all_rounds() {
    let mut c = AhjoorContract::new();
    let admin: u64 = 100;
    let u1: u64 = 0;
    let u2: u64 = 1;
    let mut balances: Vec<i128> = vec![2000, 2000];
    let mut pool: i128 = 0;

    c.init(
        admin,
        vec![u1, u2],
        100,
        3600,
        PayoutStrategy::RoundRobin,
        None,
        0,
        0,
    )
    .unwrap();

    // ROUND 0: u1 should get the payout
    for user in [u1, u2] {
        let out = c.contribute(user, true, 0, pool).unwrap();
        balances[user as usize] -= out.amount;
        pool += out.amount;
        if let Some(done) = out.completion {
            balances[done.recipient as usize] += done.payout;
            pool -= done.payout;
            assert_eq!(done.recipient, u1);
        }
    }
    // Math: 2000 (start) - 100 (spent) + 200 (pot) = 2100
    assert_eq!(balances[u1 as usize], 2100);

    // ROUND 1: u2 should get the payout
    for user in [u1, u2] {
        let out = c.contribute(user, true, 0, pool).unwrap();
        balances[user as usize] -= out.amount;
        pool += out.amount;
        if let Some(done) = out.completion {
            balances[done.recipient as usize] += done.payout;
            pool -= done.payout;
            assert_eq!(done.recipient, u2);
        }
    }
    // Math: 2000 (start) - 100 (spent R0) - 100 (spent R1) + 200 (pot R1) = 2000
    assert_eq!(balances[u2 as usize], 2000);
}

#[test]
fn test_admin_assigned_e2e_all_rounds() {
    let mut c = AhjoorContract::new();
    let admin: u64 = 100;
    let u1: u64 = 0;
    let u2: u64 = 1;
    let mut balances: Vec<i128> = vec![2000, 2000];
    let mut pool: i128 = 0;

    // Strategy: Admin Assigned (Reverse the order: u2 then u1)
    c.init(
        admin,
        vec![u1, u2],
        100,
        3600,
        PayoutStrategy::AdminAssigned,
        Some(vec![u2, u1]),
        0,
        0,
    )
    .unwrap();

    // ROUND 0: u2 should get the payout first
    for user in [u1, u2] {
        let out = c.contribute(user, true, 0, pool).unwrap();
        balances[user as usize] -= out.amount;
        pool += out.amount;
        if let Some(done) = out.completion {
            balances[done.recipient as usize] += done.payout;
            pool -= done.payout;
        }
    }
    assert_eq!(balances[u2 as usize], 2100);

    // ROUND 1: u1 should get the payout second
    for user in [u1, u2] {
        let out = c.contribute(user, true, 0, pool).unwrap();
        balances[user as usize] -= out.amount;
        pool += out.amount;
        if let Some(done) = out.completion {
            balances[done.recipient as usize] += done.payout;
            pool -= done.payout;
        }
    }
    assert_eq!(balances[u1 as usize], 2000);
}

#[test]
fn test_verify_contract_events() {
    let mut c = AhjoorContract::new();
    let admin: u64 = 100;
    let user1: u64 = 0;
    let user2: u64 = 1;
    let amount: i128 = 100;

    // 1. Verify the initialization payload
    let init_out = c
        .init(
            admin,
            vec![user1, user2],
            amount,
            3600,
            PayoutStrategy::RoundRobin,
            None,
            0,
            0,
        )
        .unwrap();
    assert_eq!(
        (init_out.member_count, init_out.contribution_amount),
        (2, amount)
    );

    // 2. Verify the contribution payload
    let out = c.contribute(user1, true, 0, 0).unwrap();
    assert_eq!(out.round, 0);
    assert_eq!(out.amount, amount);
    assert!(out.completion.is_none());

    // 3. Verify the round-completion and round-reset payloads
    let out = c.contribute(user2, true, 0, 100).unwrap();
    let done = out.completion.unwrap();
    assert_eq!((done.recipient, done.payout), (user1, 200i128));
    // the completed round's index, carried by the reset notification
    assert_eq!(out.round, 0);
    let (round, _, _, _) = c.get_state();
    assert_eq!(round, 1);
}
