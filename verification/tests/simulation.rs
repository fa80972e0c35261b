use rand::{Rng, RngCore};
use rayon::iter::{IntoParallelRefIterator, IntoParallelRefMutIterator, ParallelIterator};
use safe_farming::{
    AccountId, Accumulation, Error, FarmingSystem, Money, RewardCounter, RewardCounterSet,
    StorageRewards,
};
use std::collections::{HashMap, HashSet};

// 1. We have 7 Elders.
// 2. We issue n rewards.
// 3. We claim the accumulated rewards.
// 4. We apply byzantine faults to the claimed rewards.
// 5. We assert that the faults do not affect the outcome.
//
// For every claimed reward, 4 Elders are correct and 3 Elders are wildly wrong.

type Elder = FarmingSystem<StorageRewards>;

struct RewardResults {
    total_reward: u64,
    total_agreed_rewards: u64,
    total_work: u64,
    total_agreed_work: u64,
    reward_diff_percent: f64,
    work_diff_percent: f64,
}

#[derive(Clone, Debug)]
struct Factor {
    value: f64,
}

#[derive(Clone, Debug)]
struct PreviousWork {
    values: Vec<u64>,
}

#[derive(Clone, Debug)]
struct WorkInfo {
    values: Vec<(Hash, NumBytes)>,
}

#[derive(Clone, Debug)]
struct Hash {
    value: Vec<u8>,
}

#[derive(Clone, Debug)]
struct NumBytes {
    value: u64,
}

fn previous_work() -> PreviousWork {
    let mut rng = rand::thread_rng();
    let count: u32 = rng.gen_range(160, 200);
    let values: Vec<u64> = (0..count).map(|_| rng.gen_range(1, 2135)).collect();
    PreviousWork { values }
}

fn work_info() -> WorkInfo {
    let mut rng = rand::thread_rng();
    // 10-15 data uploads (and reward instances)
    let count: u32 = rng.gen_range(10, 15);
    let values: Vec<(Hash, NumBytes)> = (0..count)
        .map(|_| {
            // 256 byte hash
            let hash: Vec<u8> = (0..256).map(|_| rng.gen_range(0, 255)).collect();
            (
                Hash { value: hash },
                NumBytes {
                    // 3 kb (inclusive) to 1001 kb (exclusive)
                    value: rng.gen_range(3000, 1_000_001),
                },
            )
        })
        .collect();
    WorkInfo { values }
}

fn get_random_account() -> AccountId {
    rand::thread_rng().next_u64()
}

fn get_instance(base_cost: u64) -> Elder {
    let acc = Accumulation::new(Default::default(), Default::default());
    let base_cost = Money::from_nano(base_cost);
    let algo = StorageRewards::new(base_cost);
    FarmingSystem::new(algo, acc)
}

fn reward(instance: &mut Elder, data_info: (Hash, NumBytes), factor: f64) -> Result<Money, Error> {
    let (hash, num_bytes) = data_info;
    instance.reward(hash.value, num_bytes.value, |work_cost| {
        let amount = factor * work_cost.as_nano() as f64;
        Money::from_nano(amount.round() as u64)
    })
}

fn diff(one: u64, two: u64) -> f64 {
    (u64::max(one, two) as f64 / u64::min(one, two) as f64) - 1.0
}

fn round(value: f64, decimals: u8) -> f64 {
    let base: u64 = 10;
    let res = base.pow(decimals.into()) as f64;
    (res * value).round() / res
}

// Four out of seven Elders will be correct/honest.
// Three out of seven Elders will be wildly wrong/dishonest.
fn apply_byzantine_faults(counters: Vec<RewardCounter>) -> Vec<RewardCounter> {
    let mut rng = rand::thread_rng();
    let mut byzantine_elders = HashSet::new();
    let quorum = (counters.len() / 3) * 2;
    let max_byzantine = quorum - 1;
    while max_byzantine > byzantine_elders.len() {
        let _ = byzantine_elders.insert(rng.gen_range(0, counters.len()));
    }
    let mut faulty_counters = counters;
    for i in byzantine_elders {
        faulty_counters[i] = RewardCounter {
            reward: Money::from_nano(rng.next_u64()),
            work: rng.next_u64(),
        };
    }
    faulty_counters
}

fn simulate_random_rewards_with_byzantine_faults(factor: Factor) -> Result<RewardResults, Error> {
    let previous_work = previous_work();
    let work_to_perform = work_info();

    let base_cost = 0;
    // 1. We have 7 Elders.
    let num_elders = 7;
    let mut elders: Vec<Elder> = (0..num_elders).map(|_| get_instance(base_cost)).collect();

    let mut accounts = vec![];
    for work in &previous_work.values {
        let account = get_random_account();
        accounts.push(account);
        for elder in &mut elders {
            elder.add_account(account, *work).unwrap();
        }
    }

    // 2. We will issue n rewards.
    let total_reward_sum = elders
        .par_iter_mut()
        .map(|elder| {
            work_to_perform
                .values
                .iter()
                .map(|work_info| {
                    reward(elder, work_info.clone(), factor.value)
                        .unwrap()
                        .as_nano()
                })
                .sum::<u64>()
                / num_elders
        })
        .sum::<u64>();

    // The expected reward will be calculated.
    let total_reward: u64 = work_to_perform
        .values
        .par_iter()
        .map(|(_, numbytes)| (base_cost + numbytes.value) as f64)
        .map(|work_cost| factor.value * work_cost)
        .map(|tr| tr.round() as u64)
        .sum();
    let total_work: u64 = (previous_work.values.len() as u64
        * work_to_perform.values.len() as u64)
        + previous_work.values.into_iter().sum::<u64>();

    let mut total_agreed_rewards = 0;
    let mut total_agreed_work = 0;

    // For each account, we claim the counter from all Elders, introduce the
    // byzantine faults, and finally reach an agreement on a single counter
    // value.
    for account in accounts {
        let counters: Vec<RewardCounter> = elders
            .par_iter_mut()
            .map(|elder| elder.claim(account).unwrap())
            .collect();
        let honest = counters[0];
        let counters =
            RewardCounterSet::new(num_elders as usize, apply_byzantine_faults(counters))?;
        let agreed_counter = counters.agreed_value().unwrap();
        assert_eq!(agreed_counter, honest);
        total_agreed_rewards += agreed_counter.reward.as_nano();
        total_agreed_work += agreed_counter.work;
    }

    // Comparing results
    if total_reward_sum != total_reward {
        println!(
            "total_reward_sum: {}, total_reward: {}",
            total_reward_sum, total_reward
        );
    }

    let reward_diff_percent = 100.0 * diff(total_reward, total_agreed_rewards);
    let work_diff_percent = 100.0 * diff(total_work, total_agreed_work);

    Ok(RewardResults {
        total_reward,
        total_agreed_rewards,
        total_work,
        total_agreed_work,
        reward_diff_percent,
        work_diff_percent,
    })
}

fn record_result(outcome: f64, bucket: &mut HashMap<isize, u64>) {
    let log10 = outcome.log10();
    let position = if outcome >= 1.0 {
        round(log10.ceil(), 0) as isize
    } else {
        round(log10.floor(), 0) as isize
    };
    let next_value = match bucket.get(&position) {
        Some(v) => v + 1,
        None => 1,
    };
    let _ = bucket.insert(position, next_value);
}

fn occurs_at_least_this_often(
    outcomes: &HashMap<isize, u64>,
    num_cases: u64,
    precision: isize,
    percent_of_the_cases: f64,
) -> bool {
    let sum_of_outcomes = outcomes
        .iter()
        .filter(|(p, _)| *p <= &precision)
        .map(|(_, count)| count)
        .sum::<u64>() as f64;
    let ge_precision = sum_of_outcomes / num_cases as f64;
    ge_precision >= percent_of_the_cases
}

fn find_distribution(num_cases: u64, outcomes: HashMap<isize, u64>) -> HashMap<isize, f64> {
    let error = 0.0001;
    let mut diff_distribution = HashMap::new();
    for precision in -10_isize..-1 {
        let mut max = 1.0; // 100 %
        let mut min = 0.01; // 1 %
        let mut safety_break = 0;
        loop {
            let mid = min + (max - min) / 2.0;
            let occurs_at_least_this_often =
                occurs_at_least_this_often(&outcomes, num_cases, precision, mid);
            if occurs_at_least_this_often && (round(max, 2) - round(min, 2)).abs() < error {
                let _ = diff_distribution.insert(precision, round(mid, 2));
                break;
            } else if occurs_at_least_this_often {
                min = mid;
            } else {
                max = mid;
            }
            safety_break += 1;
            if safety_break > 100 {
                let _ = diff_distribution.insert(precision, round(mid, 2));
                break;
            }
        }
    }
    diff_distribution
}

fn print_distribution(distribution: HashMap<isize, f64>) {
    let mut distribution = distribution.into_iter().collect::<Vec<(isize, f64)>>();
    distribution.sort_by_key(|item| item.0);

    let mut seen = vec![];
    for (precision, occurrence) in distribution {
        if seen.contains(&occurrence) {
            continue;
        }
        println!(
            "{:.10} % of the time, we have less than {} % diff",
            occurrence * 100.0,
            10_f64.powf(precision as f64)
        );
        seen.push(occurrence);
    }
}

/// This is just a helper test, to verify and show what we mean with
/// "position", used in finding the distribution of outcomes.
#[test]
fn test_position() {
    let error = 0.000_000_001;

    let number = 0.00056_f64;
    let log10 = number.log10();
    let position = log10.floor();
    let expected: f64 = -4.0;
    assert!((expected - position).abs() < error); // fourth decimal position

    let number = 5000.00056_f64;
    let log10 = number.log10();
    let position = log10.ceil();
    let expected: f64 = 4.0;
    assert!((expected - position).abs() < error); // fourth position of integers
}

/// Adds results to buckets, and shows how many results fall into each range.
/// The agreed counters are those of the correct Elders, so that what was agreed
/// is what was issued.
#[test]
fn verify_reward_bft() -> Result<(), Error> {
    let mut rng = rand::thread_rng();
    let mut reward_buckets = HashMap::<isize, u64>::new();
    let mut work_buckets = HashMap::<isize, u64>::new();

    let iters = 100;
    for _ in 0..iters {
        let factor = Factor {
            value: rng.gen_range(0.67, 2.7),
        };
        let data = simulate_random_rewards_with_byzantine_faults(factor)?;
        assert_eq!(data.total_agreed_rewards, data.total_reward);
        assert_eq!(data.total_agreed_work, data.total_work);
        record_result(data.reward_diff_percent, &mut reward_buckets);
        record_result(data.work_diff_percent, &mut work_buckets);
    }

    let work_diff_distribution = find_distribution(iters, work_buckets);
    let reward_diff_distribution = find_distribution(iters, reward_buckets);

    println!("---");
    println!("Work diff distribution:");
    print_distribution(work_diff_distribution);
    println!();
    println!("Reward diff distribution:");
    print_distribution(reward_diff_distribution);
    println!("---");

    Ok(())
}
