use safe_farming::{Money, RewardCounter};

#[test]
fn checked_add_sums_the_amounts() {
    let sum = Money::from_nano(1).checked_add(Money::from_nano(2));
    assert_eq!(sum, Some(Money::from_nano(3)));
    assert_eq!(sum.unwrap().as_nano(), 3);
}

#[test]
fn checked_add_gives_nothing_past_the_largest_amount() {
    let largest = Money::from_nano(u64::MAX);
    assert_eq!(largest.checked_add(Money::from_nano(1)), None);
    assert_eq!(largest.checked_add(Money::zero()), Some(largest));
    assert_eq!(
        Money::from_nano(u64::MAX - 1).checked_add(Money::from_nano(1)),
        Some(largest)
    );
}

#[test]
fn zero_is_no_money() {
    assert_eq!(Money::zero(), Money::from_nano(0));
    assert_eq!(Money::zero().as_nano(), 0);
}

#[test]
fn counter_add_grows_reward_and_work() {
    let counter = RewardCounter {
        reward: Money::from_nano(10),
        work: 4,
    };
    assert_eq!(
        counter.add(Money::from_nano(5)),
        Some(RewardCounter {
            reward: Money::from_nano(15),
            work: 5
        })
    );
}

#[test]
fn counter_add_gives_nothing_past_the_largest_amount() {
    let counter = RewardCounter {
        reward: Money::from_nano(u64::MAX),
        work: 4,
    };
    assert_eq!(counter.add(Money::from_nano(1)), None);
}

#[test]
fn default_counter_is_empty() {
    assert_eq!(
        RewardCounter::default(),
        RewardCounter {
            reward: Money::zero(),
            work: 0
        }
    );
}
