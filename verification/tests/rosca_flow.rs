//! Round life-cycle tests: on-time and late contributions, deadline
//! enforcement and administrative closure.

use ahjoor_rosca::AhjoorContract;
use ahjoor_rosca::Error;
use ahjoor_rosca::PayoutStrategy;

#[test]
fn test_rosca_flow_with_time_locks() {
    let mut c = AhjoorContract::new();
    let admin: u64 = 100;
    let user1: u64 = 0;
    let user2: u64 = 1;
    let user3: u64 = 2;
    let mut balances: Vec<i128> = vec![1000, 1000, 1000];
    let mut pool: i128 = 0;

    c.init(
        admin,
        vec![user1, user2, user3],
        100,
        3600,
        PayoutStrategy::RoundRobin,
        None,
        0,
        0,
    )
    .unwrap();

    let out = c.contribute(user1, true, 100, pool).unwrap();
    balances[user1 as usize] -= out.amount;
    pool += out.amount;
    assert_eq!(balances[user1 as usize], 900);

    let result = c.contribute(user2, true, 3601, pool);
    assert!(result.is_err());

    c.close_round(true, 3601).unwrap();

    let (round, paid, deadline, _) = c.get_state();
    assert_eq!(round, 1);
    assert_eq!(paid.len(), 0);
    assert_eq!(deadline, 7201);

    let out = c.contribute(user1, true, 4000, pool).unwrap();
    balances[user1 as usize] -= out.amount;
    pool += out.amount;
    assert_eq!(balances[user1 as usize], 800);
    assert_eq!(pool, 200);
}

#[test]
fn test_cannot_close_early() {
    let mut c = AhjoorContract::new();
    let admin: u64 = 100;

    c.init(
        admin,
        vec![0],
        100,
        3600,
        PayoutStrategy::RoundRobin,
        None,
        0,
        0,
    )
    .unwrap();

    let result = c.close_round(true, 500);
    assert_eq!(result.unwrap_err(), Error::DeadlineNotPassed);
}

#[test]
fn test_on_time_contribution() {
    let mut c = AhjoorContract::new();
    let admin: u64 = 100;
    let user1: u64 = 0;
    let user2: u64 = 1;
    let mut balances: Vec<i128> = vec![1000, 0];
    let pool: i128 = 0;

    c.init(
        admin,
        vec![user1, user2],
        100,
        3600,
        PayoutStrategy::RoundRobin,
        None,
        0,
        0,
    )
    .unwrap();

    let out = c.contribute(user1, true, 1000, pool).unwrap();
    balances[user1 as usize] -= out.amount;

    assert_eq!(balances[user1 as usize], 900);
    let (_, paid, _, _) = c.get_state();
    assert!(paid.contains(&user1));
}

#[test]
fn test_late_contribution_rejection() {
    let mut c = AhjoorContract::new();
    let admin: u64 = 100;
    let user1: u64 = 0;

    c.init(
        admin,
        vec![user1],
        100,
        3600,
        PayoutStrategy::RoundRobin,
        None,
        0,
        0,
    )
    .unwrap();

    let result = c.contribute(user1, true, 3601, 0);
    assert_eq!(result.unwrap_err(), Error::DeadlinePassed);
}

#[test]
fn test_admin_close_round() {
    let mut c = AhjoorContract::new();
    let admin: u64 = 100;

    c.init(
        admin,
        vec![0],
        100,
        3600,
        PayoutStrategy::RoundRobin,
        None,
        0,
        0,
    )
    .unwrap();

    c.close_round(true, 3601).unwrap();

    let (round, _, _, _) = c.get_state();
    assert_eq!(round, 1);
}
