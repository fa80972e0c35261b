use safe_farming::{Error, Money, RewardCounter, RewardCounterSet};

fn counter(reward: u64, work: u64) -> RewardCounter {
    RewardCounter {
        reward: Money::from_nano(reward),
        work,
    }
}

#[test]
fn expected_count_must_be_odd_and_three_at_least() {
    assert!(matches!(
        RewardCounterSet::new(6, vec![]),
        Err(Error::InvalidOperation)
    ));
    assert!(matches!(
        RewardCounterSet::new(2, vec![]),
        Err(Error::InvalidOperation)
    ));
    assert!(matches!(
        RewardCounterSet::new(1, vec![]),
        Err(Error::InvalidOperation)
    ));
    assert!(matches!(
        RewardCounterSet::new(0, vec![]),
        Err(Error::InvalidOperation)
    ));
    assert!(RewardCounterSet::new(7, vec![]).is_ok());
    assert!(RewardCounterSet::new(3, vec![]).is_ok());
}

#[test]
fn no_value_below_the_quorum() {
    // Seven replicas: the quorum is four.
    let mut set = RewardCounterSet::new(7, vec![]).unwrap();
    assert!(set.is_empty());
    assert_eq!(set.agreed_value(), None);
    for i in 0..3 {
        set.add(counter(10, 2));
        assert_eq!(set.len(), i + 1);
        assert_eq!(set.agreed_value(), None);
    }
    set.add(counter(10, 2));
    assert!(!set.is_empty());
    assert_eq!(set.agreed_value(), Some(counter(10, 2)));
}

#[test]
fn quorum_is_two_for_each_three_expected() {
    // Three and five replicas: the quorum is two.
    for expected in [3usize, 5] {
        let mut set = RewardCounterSet::new(expected, vec![counter(1, 1)]).unwrap();
        assert_eq!(set.agreed_value(), None);
        set.add(counter(1, 1));
        assert_eq!(set.agreed_value(), Some(counter(1, 1)));
    }
    // Nine replicas: the quorum is six.
    let mut set = RewardCounterSet::new(9, vec![counter(1, 1); 5]).unwrap();
    assert_eq!(set.agreed_value(), None);
    set.add(counter(1, 1));
    assert_eq!(set.agreed_value(), Some(counter(1, 1)));
}

#[test]
fn odd_count_takes_the_middle_of_each_field() {
    let set = RewardCounterSet::new(
        3,
        vec![counter(30, 1), counter(10, 3), counter(20, 2)],
    )
    .unwrap();
    assert_eq!(set.agreed_value(), Some(counter(20, 2)));

    // Reward and work are taken each by itself: no reported counter need hold
    // both medians.
    let set = RewardCounterSet::new(
        3,
        vec![counter(1, 9), counter(5, 8), counter(9, 1)],
    )
    .unwrap();
    assert_eq!(set.agreed_value(), Some(counter(5, 8)));
}

#[test]
fn even_count_takes_the_mean_of_the_two_in_the_middle_rounded_down() {
    let set = RewardCounterSet::new(3, vec![counter(10, 4), counter(13, 1)]).unwrap();
    assert_eq!(set.agreed_value(), Some(counter(11, 2)));

    let set = RewardCounterSet::new(
        5,
        vec![counter(1, 7), counter(100, 8), counter(5, 2), counter(8, 3)],
    )
    .unwrap();
    // Rewards 1, 5, 8, 100: (5 + 8) / 2 = 6. Work 2, 3, 7, 8: (3 + 7) / 2 = 5.
    assert_eq!(set.agreed_value(), Some(counter(6, 5)));

    let set = RewardCounterSet::new(
        3,
        vec![counter(u64::MAX, u64::MAX), counter(u64::MAX - 1, u64::MAX - 3)],
    )
    .unwrap();
    assert_eq!(
        set.agreed_value(),
        Some(counter(u64::MAX - 1, u64::MAX - 2))
    );
}

#[test]
fn honest_majority_decides() {
    let honest = counter(1234, 56);
    let faulty = [
        [counter(u64::MAX, u64::MAX), counter(0, 0)],
        [counter(0, 0), counter(0, 0)],
        [counter(u64::MAX, 0), counter(u64::MAX, 0)],
        [counter(1235, 55), counter(1233, 57)],
    ];
    for pair in faulty {
        for first in 0..7 {
            for second in 0..7 {
                if first == second {
                    continue;
                }
                let mut counters = vec![honest; 7];
                counters[first] = pair[0];
                counters[second] = pair[1];
                let set = RewardCounterSet::new(7, counters).unwrap();
                assert_eq!(set.agreed_value(), Some(honest));
            }
        }
    }
}

#[test]
fn three_faulty_of_seven_do_not_change_the_agreed_value() {
    let honest = counter(1_000_000, 2134);
    let set = RewardCounterSet::new(
        7,
        vec![
            counter(u64::MAX, 0),
            honest,
            honest,
            counter(0, u64::MAX),
            honest,
            counter(u64::MAX, u64::MAX),
            honest,
        ],
    )
    .unwrap();
    assert_eq!(set.agreed_value(), Some(honest));
}

#[test]
fn agreed_value_lies_between_the_honest_values() {
    // Honest rewards 1 to 5 and two large faulty ones: the median of all, 4,
    // differs from the median of the honest ones, 3, and lies among them.
    let set = RewardCounterSet::new(
        7,
        vec![
            counter(1, 1),
            counter(2, 1),
            counter(3, 1),
            counter(4, 1),
            counter(5, 1),
            counter(u64::MAX, 1),
            counter(u64::MAX, 1),
        ],
    )
    .unwrap();
    assert_eq!(set.agreed_value(), Some(counter(4, 1)));
}
