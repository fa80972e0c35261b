//! The agreement of several replicas on the counter of an account.

use crate::money::{Error, Money, RewardCounter};
use crate::sort::{ascending, sort, Ranked};
use vstd::prelude::*;
use vstd::relations::{sorted_by, total_ordering};
use vstd::seq_lib::lemma_sorted_unique;

verus! {

/// The order of numbers.
pub open spec fn at_most() -> spec_fn(u64, u64) -> bool {
    |a: u64, b: u64| a <= b
}

/// The middle of a list of numbers that is sorted and not empty: for an odd
/// length the element in the middle, for an even length the mean of the two
/// elements in the middle, rounded down.
pub open spec fn middle(sorted: Seq<u64>) -> u64 {
    let n = sorted.len() as int;
    if n % 2 == 1 {
        sorted[n / 2]
    } else {
        ((sorted[n / 2 - 1] + sorted[n / 2]) / 2) as u64
    }
}

/// The median of a list of numbers that is not empty.
pub open spec fn median(values: Seq<u64>) -> u64 {
    middle(values.sort_by(at_most()))
}

/// The rewards of the counters, in nanos.
pub open spec fn rewards_of(counters: Seq<RewardCounter>) -> Seq<u64> {
    Seq::new(counters.len(), |i: int| counters[i].reward.nano)
}

/// The work of the counters.
pub open spec fn works_of(counters: Seq<RewardCounter>) -> Seq<u64> {
    Seq::new(counters.len(), |i: int| counters[i].work)
}

/// The counter that `quorum` or more reported counters agree on: the median
/// of the rewards with the median of the work. Nothing while fewer than
/// `quorum` counters were reported, nor of no counters at all.
pub open spec fn agreed(quorum: nat, counters: Seq<RewardCounter>) -> Option<RewardCounter> {
    if counters.len() < quorum || counters.len() == 0 {
        None
    } else {
        Some(
            RewardCounter {
                reward: Money { nano: median(rewards_of(counters)) },
                work: median(works_of(counters)),
            },
        )
    }
}

/// How many of `values` lie between `low` and `high`.
pub open spec fn count_within(values: Seq<u64>, low: u64, high: u64) -> nat
    decreases values.len(),
{
    if values.len() == 0 {
        0
    } else {
        count_within(values.drop_last(), low, high) + if low <= values.last() <= high {
            1nat
        } else {
            0nat
        }
    }
}

/// How many of `counters` are equal to `counter`.
pub open spec fn count_equal(counters: Seq<RewardCounter>, counter: RewardCounter) -> nat
    decreases counters.len(),
{
    if counters.len() == 0 {
        0
    } else {
        count_equal(counters.drop_last(), counter) + if counters.last() == counter {
            1nat
        } else {
            0nat
        }
    }
}

/// No more values lie within a range than there are values.
proof fn lemma_count_at_most_len(values: Seq<u64>, low: u64, high: u64)
    ensures
        count_within(values, low, high) <= values.len(),
    decreases values.len(),
{
    if values.len() > 0 {
        lemma_count_at_most_len(values.drop_last(), low, high);
    }
}

/// Taking a value out lowers the count by one where the value lies within the
/// range, and not otherwise.
proof fn lemma_count_remove(values: Seq<u64>, low: u64, high: u64, i: int)
    requires
        0 <= i < values.len(),
    ensures
        count_within(values, low, high) == count_within(values.remove(i), low, high) + if low
            <= values[i] <= high {
            1nat
        } else {
            0nat
        },
    decreases values.len(),
{
    if i == values.len() - 1 {
        assert(values.remove(i) =~= values.drop_last());
    } else {
        lemma_count_remove(values.drop_last(), low, high, i);
        assert(values.remove(i).drop_last() =~= values.drop_last().remove(i));
        assert(values.remove(i).last() == values.last());
    }
}

/// Lists that hold the same values, each as often, have as many within a
/// range.
proof fn lemma_count_rearranged(s: Seq<u64>, t: Seq<u64>, low: u64, high: u64)
    requires
        s.to_multiset() == t.to_multiset(),
    ensures
        count_within(s, low, high) == count_within(t, low, high),
    decreases s.len(),
{
    broadcast use vstd::seq_lib::group_to_multiset_ensures;

    vstd::seq_lib::to_multiset_len(s);
    vstd::seq_lib::to_multiset_len(t);
    if s.len() > 0 {
        let last = s.last();
        assert(s.contains(last));
        assert(t.to_multiset().count(last) > 0);
        assert(t.contains(last));
        let i = choose|i: int| 0 <= i < t.len() && t[i] == last;
        vstd::seq_lib::to_multiset_remove(t, i);
        vstd::seq_lib::to_multiset_remove(s, s.len() - 1);
        assert(s.remove(s.len() - 1) =~= s.drop_last());
        lemma_count_rearranged(s.drop_last(), t.remove(i), low, high);
        lemma_count_remove(t, low, high, i);
    } else {
        assert(t.len() == 0);
    }
}

/// In a sorted list, no value up to one below the range lies within it.
proof fn lemma_count_below(s: Seq<u64>, low: u64, high: u64, k: int)
    requires
        sorted_by(s, at_most()),
        0 <= k < s.len(),
        s[k] < low,
    ensures
        count_within(s, low, high) <= s.len() - (k + 1),
    decreases s.len(),
{
    let rest = s.drop_last();
    if k < s.len() - 1 {
        assert(sorted_by(rest, at_most())) by {
            assert forall|i: int, j: int| 0 <= i < j < rest.len() implies #[trigger] at_most()(
                rest[i],
                rest[j],
            ) by {
                assert(at_most()(s[i], s[j]));
            }
        }
        lemma_count_below(rest, low, high, k);
    } else {
        assert forall|i: int| 0 <= i < s.len() implies s[i] < low by {
            if i < k {
                assert(at_most()(s[i], s[k]));
            }
        }
        lemma_count_none_below(s, low, high);
    }
}

/// Values that are all below the range do not lie within it.
proof fn lemma_count_none_below(s: Seq<u64>, low: u64, high: u64)
    requires
        forall|i: int| 0 <= i < s.len() ==> s[i] < low,
    ensures
        count_within(s, low, high) == 0,
    decreases s.len(),
{
    if s.len() > 0 {
        lemma_count_none_below(s.drop_last(), low, high);
    }
}

/// In a sorted list, no value from one above the range on lies within it.
proof fn lemma_count_above(s: Seq<u64>, low: u64, high: u64, k: int)
    requires
        sorted_by(s, at_most()),
        0 <= k < s.len(),
        s[k] > high,
    ensures
        count_within(s, low, high) <= k,
    decreases s.len(),
{
    let rest = s.drop_last();
    if k < s.len() - 1 {
        assert(at_most()(s[k], s[s.len() - 1]));
        assert(sorted_by(rest, at_most())) by {
            assert forall|i: int, j: int| 0 <= i < j < rest.len() implies #[trigger] at_most()(
                rest[i],
                rest[j],
            ) by {
                assert(at_most()(s[i], s[j]));
            }
        }
        lemma_count_above(rest, low, high, k);
    } else {
        lemma_count_at_most_len(rest, low, high);
    }
}

/// The median lies where most values lie: where more than half of the values
/// lie between `low` and `high`, so does their median, whatever the others
/// are.
pub proof fn lemma_median_within_majority(values: Seq<u64>, low: u64, high: u64)
    requires
        2 * count_within(values, low, high) > values.len(),
    ensures
        low <= median(values) <= high,
{
    let leq = at_most();
    let s = values.sort_by(leq);
    assert(total_ordering(leq));
    values.lemma_sort_by_ensures(leq);
    vstd::seq_lib::to_multiset_len(s);
    vstd::seq_lib::to_multiset_len(values);
    lemma_count_rearranged(values, s, low, high);
    lemma_count_at_most_len(values, low, high);
    let n = s.len() as int;
    let upper = n / 2;
    if s[upper] < low {
        lemma_count_below(s, low, high, upper);
    }
    if s[upper] > high {
        lemma_count_above(s, low, high, upper);
    }
    if n % 2 == 0 {
        let lower = n / 2 - 1;
        if s[lower] < low {
            lemma_count_below(s, low, high, lower);
        }
        if s[lower] > high {
            lemma_count_above(s, low, high, lower);
        }
    }
}

/// As many rewards are equal to that of `counter`, and as much work to its
/// work, as there are counters equal to it, or more.
proof fn lemma_equal_counters_counted(counters: Seq<RewardCounter>, counter: RewardCounter)
    ensures
        count_equal(counters, counter) <= count_within(
            rewards_of(counters),
            counter.reward.nano,
            counter.reward.nano,
        ),
        count_equal(counters, counter) <= count_within(
            works_of(counters),
            counter.work,
            counter.work,
        ),
    decreases counters.len(),
{
    if counters.len() > 0 {
        lemma_equal_counters_counted(counters.drop_last(), counter);
        assert(rewards_of(counters).drop_last() =~= rewards_of(counters.drop_last()));
        assert(works_of(counters).drop_last() =~= works_of(counters.drop_last()));
        assert(rewards_of(counters).last() == counters.last().reward.nano);
        assert(works_of(counters).last() == counters.last().work);
    }
}

/// Replicas that work correctly report the same counter. Where a quorum has
/// reported and more than half of the reported counters are that counter, it
/// is the agreed value, whatever the other counters are.
pub proof fn lemma_honest_majority_agrees(
    quorum: nat,
    counters: Seq<RewardCounter>,
    honest: RewardCounter,
)
    requires
        counters.len() >= quorum,
        2 * count_equal(counters, honest) > counters.len(),
    ensures
        agreed(quorum, counters) == Some(honest),
{
    lemma_equal_counters_counted(counters, honest);
    lemma_median_within_majority(rewards_of(counters), honest.reward.nano, honest.reward.nano);
    lemma_median_within_majority(works_of(counters), honest.work, honest.work);
}

/// The median of `values`.
fn median_of(values: Vec<u64>) -> (m: u64)
    requires
        values@.len() > 0,
    ensures
        m == median(values@),
{
    let mut sorted = values;
    sort(&mut sorted);
    proof {
        let leq = at_most();
        assert(total_ordering(leq));
        values@.lemma_sort_by_ensures(leq);
        assert(sorted_by(sorted@, leq)) by {
            assert forall|i: int, j: int| 0 <= i < j < sorted@.len() implies #[trigger] leq(
                sorted@[i],
                sorted@[j],
            ) by {
                assert(sorted@[i].rank() <= sorted@[j].rank());
            }
        }
        lemma_sorted_unique(sorted@, values@.sort_by(leq), leq);
        assert(sorted@ == values@.sort_by(leq));
        assert(ascending(sorted@));
    }
    let n = sorted.len();
    if n % 2 == 1 {
        sorted[n / 2]
    } else {
        let low = sorted[n / 2 - 1];
        let high = sorted[n / 2];
        assert(low <= high) by {
            assert(sorted@[n / 2 - 1].rank() <= sorted@[n as int / 2].rank());
        }
        low + (high - low) / 2
    }
}

/// The counters that several replicas report for one account. Once enough of
/// them were reported, they stand for one value: the median of the set, which
/// is right while fewer than a third of the replicas are wrong.
pub struct RewardCounterSet {
    quorum: usize,
    counters: Vec<RewardCounter>,
}

impl RewardCounterSet {
    /// The number of counters from which on there is an agreed value.
    pub closed spec fn quorum(&self) -> usize {
        self.quorum
    }

    /// The counters reported so far.
    pub closed spec fn counters(&self) -> Seq<RewardCounter> {
        self.counters@
    }

    /// A set for `expected_counters` replicas, of which `counters` were
    /// reported already. The number of replicas must be odd, and three at
    /// least.
    pub fn new(expected_counters: usize, counters: Vec<RewardCounter>) -> (result: Result<
        Self,
        Error,
    >)
        ensures
            match result {
                Ok(set) => expected_counters % 2 == 1 && expected_counters >= 3 && set.quorum()
                    == (expected_counters / 3) * 2 && set.counters() == counters@,
                Err(error) => error == Error::InvalidOperation && (expected_counters % 2 == 0
                    || expected_counters < 3),
            },
    {
        if expected_counters % 2 == 0 || 3 > expected_counters {
            return Err(Error::InvalidOperation);
        }
        let quorum = (expected_counters / 3) * 2;
        Ok(Self { quorum, counters })
    }

    /// The number of counters in the set.
    pub fn len(&self) -> (n: usize)
        ensures
            n == self.counters().len(),
    {
        self.counters.len()
    }

    /// Whether the set holds no counter.
    pub fn is_empty(&self) -> (empty: bool)
        ensures
            empty == (self.counters().len() == 0),
    {
        self.counters.len() == 0
    }

    /// Adds a counter to the set.
    pub fn add(&mut self, counter: RewardCounter)
        ensures
            final(self).counters() == old(self).counters().push(counter),
            final(self).quorum() == old(self).quorum(),
    {
        self.counters.push(counter)
    }

    /// The value that the replicas agree on, once a quorum of them has
    /// reported: the median of the rewards and the median of the work, each
    /// taken by itself. The mean of two middle values is rounded down.
    pub fn agreed_value(&self) -> (value: Option<RewardCounter>)
        ensures
            value == agreed(self.quorum() as nat, self.counters()),
    {
        let count = self.counters.len();
        if self.quorum > count || count == 0 {
            return None;
        }
        let median_reward = self.median_reward();
        let median_work = self.median_work();
        Some(RewardCounter { reward: median_reward, work: median_work })
    }

    /// The median of the rewards.
    fn median_reward(&self) -> (m: Money)
        requires
            self.counters().len() > 0,
        ensures
            m.nano == median(rewards_of(self.counters())),
    {
        let mut rewards: Vec<u64> = Vec::new();
        let mut i: usize = 0;
        while i < self.counters.len()
            invariant
                i <= self.counters@.len(),
                rewards@.len() == i,
                forall|j: int| 0 <= j < i ==> rewards@[j] == self.counters@[j].reward.nano,
            decreases self.counters@.len() - i,
        {
            rewards.push(self.counters[i].reward.as_nano());
            i = i + 1;
        }
        assert(rewards@ =~= rewards_of(self.counters()));
        Money::from_nano(median_of(rewards))
    }

    /// The median of the work.
    fn median_work(&self) -> (m: u64)
        requires
            self.counters().len() > 0,
        ensures
            m == median(works_of(self.counters())),
    {
        let mut works: Vec<u64> = Vec::new();
        let mut i: usize = 0;
        while i < self.counters.len()
            invariant
                i <= self.counters@.len(),
                works@.len() == i,
                forall|j: int| 0 <= j < i ==> works@[j] == self.counters@[j].work,
            decreases self.counters@.len() - i,
        {
            works.push(self.counters[i].work);
            i = i + 1;
        }
        assert(works@ =~= works_of(self.counters()));
        median_of(works)
    }
}

} // verus!
