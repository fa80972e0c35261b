use safe_farming::{AccountId, Money, RewardAlgo, StorageRewards, Work};
use std::collections::HashMap;
use threshold_crypto::SecretKey;

fn get_random_pk() -> AccountId {
    let bytes = SecretKey::random().public_key().to_bytes();
    let mut first = [0u8; 8];
    first.copy_from_slice(&bytes[..8]);
    u64::from_be_bytes(first)
}

fn works(entries: &[(AccountId, Work)]) -> HashMap<AccountId, Work> {
    let mut map = HashMap::new();
    for (id, work) in entries {
        let _ = map.insert(*id, *work);
    }
    map
}

fn split(total: u64, entries: &[(AccountId, Work)]) -> HashMap<AccountId, u64> {
    let calc = StorageRewards::new(Money::from_nano(0));
    calc.distribute(Money::from_nano(total), works(entries))
        .into_iter()
        .map(|(id, reward)| (id, reward.as_nano()))
        .collect()
}

fn sum(dist: &HashMap<AccountId, u64>) -> u128 {
    dist.values().map(|share| *share as u128).sum()
}

#[test]
fn distributes_proportionally() -> Result<(), safe_farming::Error> {
    // 7 workers, with accumulated work of 1 to 7, share 28 nanos of reward.
    // This will result in each worker getting one nano per unit of work.
    let calc = StorageRewards::new(Money::from_nano(0));
    let accounts_work = (1..8).map(|i| (get_random_pk(), i)).collect();
    let mut dist: Vec<Money> = calc
        .distribute(Money::from_nano(28), accounts_work)
        .into_iter()
        .map(|(_, reward)| reward)
        .collect();
    dist.sort();
    for (i, amount) in dist.iter().enumerate().take(7) {
        assert_eq!(amount.as_nano(), (i + 1) as u64);
    }
    Ok(())
}

#[test]
fn each_account_gets_its_work_where_the_total_is_the_whole_work() {
    let dist = split(28, &[(11, 1), (12, 2), (13, 3), (14, 4), (15, 5), (16, 6), (17, 7)]);
    for i in 1..8u64 {
        assert_eq!(dist[&(10 + i)], i);
    }
    assert_eq!(sum(&dist), 28);
}

#[test]
fn empty_work_gives_an_empty_distribution() {
    assert!(split(1000, &[]).is_empty());
    assert!(split(0, &[]).is_empty());
}

#[test]
fn single_account_gets_everything() {
    let dist = split(u64::MAX, &[(4, 9)]);
    assert_eq!(dist.len(), 1);
    assert_eq!(dist[&4], u64::MAX);
}

#[test]
fn what_is_missing_goes_to_the_smallest_share() {
    // 10 / 3 rounds to 3 for each: one nano is missing, and the first of the
    // equal shares is that of the smallest identifier.
    let dist = split(10, &[(30, 1), (10, 1), (20, 1)]);
    assert_eq!(dist[&10], 4);
    assert_eq!(dist[&20], 3);
    assert_eq!(dist[&30], 3);

    // Raw shares 1, 1 and 5 of a total of 8 (7 * 1/6 = 1.17, 7 * 4/6 = 4.67):
    // the smallest share belongs to account 8 or 9, and 8 comes first.
    let dist = split(7, &[(7, 4), (9, 1), (8, 1)]);
    assert_eq!(dist[&7], 5);
    assert_eq!(dist[&8], 1);
    assert_eq!(dist[&9], 1);

    // The smallest share, not the smallest identifier, gets the remainder.
    let dist = split(100, &[(1, 5), (2, 1), (3, 1)]);
    // 100 * 5/7 = 71.4, 100 / 7 = 14.3: raw shares 71, 14, 14, one is missing.
    assert_eq!(dist[&1], 71);
    assert_eq!(dist[&2], 15);
    assert_eq!(dist[&3], 14);
    assert_eq!(sum(&dist), 100);
}

#[test]
fn an_excess_is_taken_from_the_smallest_shares() {
    // A half rounds up: both raw shares are 1, one too many.
    let dist = split(1, &[(2, 1), (1, 1)]);
    assert_eq!(dist[&1], 0);
    assert_eq!(dist[&2], 1);

    // 3 / 2 = 1.5 rounds to 2 for each of two accounts.
    let dist = split(3, &[(5, 7), (6, 7)]);
    assert_eq!(dist[&5], 1);
    assert_eq!(dist[&6], 2);

    // Raw shares 3, 3, 3, 3 of a total of 10 (2.5 each): two are too many, and
    // they are taken from the first two accounts.
    let dist = split(10, &[(4, 2), (3, 2), (2, 2), (1, 2)]);
    assert_eq!(dist[&1], 2);
    assert_eq!(dist[&2], 2);
    assert_eq!(dist[&3], 3);
    assert_eq!(dist[&4], 3);
}

#[test]
fn shares_of_zero_are_passed_over_when_an_excess_is_taken() {
    // Work 0, 1 and 1 with a total of 1: raw shares 0, 1, 1.
    let dist = split(1, &[(1, 0), (2, 1), (3, 1)]);
    assert_eq!(dist[&1], 0);
    assert_eq!(dist[&2], 0);
    assert_eq!(dist[&3], 1);
}

#[test]
fn accounts_without_work_get_nothing_beside_workers() {
    let dist = split(9, &[(1, 0), (2, 3), (3, 0), (4, 6)]);
    assert_eq!(dist[&1], 0);
    assert_eq!(dist[&2], 3);
    assert_eq!(dist[&3], 0);
    assert_eq!(dist[&4], 6);
}

#[test]
fn without_any_work_everything_goes_to_the_first_account() {
    let dist = split(5, &[(3, 0), (2, 0), (9, 0)]);
    assert_eq!(dist[&2], 5);
    assert_eq!(dist[&3], 0);
    assert_eq!(dist[&9], 0);
}

#[test]
fn nothing_to_distribute_gives_zero_to_each() {
    let dist = split(0, &[(1, 5), (2, 7)]);
    assert_eq!(dist[&1], 0);
    assert_eq!(dist[&2], 0);
}

#[test]
fn shares_always_add_up_to_the_total() {
    let cases: Vec<(u64, Vec<(AccountId, Work)>)> = vec![
        (1, vec![(1, 1), (2, 1), (3, 1), (4, 1), (5, 1)]),
        (2, vec![(1, 1), (2, 1), (3, 1), (4, 1), (5, 1)]),
        (3, vec![(1, 1), (2, 1), (3, 1), (4, 1), (5, 1)]),
        (1000, vec![(1, 3), (2, 3), (3, 3)]),
        (1001, vec![(1, 1), (2, 2), (3, 4), (4, 8), (5, 16), (6, 32)]),
        (7, vec![(1, u64::MAX), (2, u64::MAX), (3, u64::MAX)]),
        (u64::MAX, vec![(1, u64::MAX), (2, u64::MAX), (3, 1)]),
        (u64::MAX, vec![(1, 1), (2, 1)]),
        (u64::MAX - 1, vec![(1, 1), (2, 1), (3, 1), (4, 1)]),
        (17, vec![(1, 0), (2, 0), (3, 1)]),
    ];
    for (total, entries) in cases {
        let dist = split(total, &entries);
        assert_eq!(dist.len(), entries.len());
        assert_eq!(sum(&dist), total as u128);
    }
}

#[test]
fn large_amounts_are_split_exactly() {
    // Half of the largest amount each, rounded up twice, then one taken back.
    let dist = split(u64::MAX, &[(1, 1), (2, 1)]);
    assert_eq!(dist[&1], u64::MAX / 2);
    assert_eq!(dist[&2], u64::MAX / 2 + 1);
}

#[test]
fn distribution_does_not_depend_on_the_base_cost() {
    let cheap = StorageRewards::new(Money::from_nano(0));
    let dear = StorageRewards::new(Money::from_nano(1000));
    let entries = [(1, 2), (2, 5), (3, 9)];
    assert_eq!(
        cheap.distribute(Money::from_nano(33), works(&entries)),
        dear.distribute(Money::from_nano(33), works(&entries))
    );
}

#[test]
fn work_cost_is_one_nano_for_each_unit_over_the_base_cost() {
    let mut calc = StorageRewards::new(Money::from_nano(2));
    assert_eq!(calc.work_cost(3), Money::from_nano(5));
    assert_eq!(calc.work_cost(0), Money::from_nano(2));
    calc.set(Money::from_nano(40));
    assert_eq!(calc.work_cost(3), Money::from_nano(43));
    assert_eq!(calc.work_cost(u64::MAX - 40), Money::from_nano(u64::MAX));
}
