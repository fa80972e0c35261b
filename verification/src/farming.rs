//! A farming system: a way to calculate rewards, together with their
//! accumulation.

use crate::accumulation::{lemma_accepted_is_admitted, Accumulation, Ledger};
use crate::calculation::RewardAlgo;
use crate::event::{AccumulationEvent, Change};
use crate::listing::{list_entries, lists};
use crate::money::{AccountId, Error, Money, RewardCounter, Work};
use std::collections::HashMap;
use vstd::prelude::*;

verus! {

/// The work of each account that has a counter.
pub open spec fn work_snapshot(counters: Map<AccountId, RewardCounter>) -> Map<AccountId, Work> {
    Map::new(|id: AccountId| counters.contains_key(id), |id: AccountId| counters[id].work)
}

/// The work of each account of `counters`.
fn snapshot_work(counters: &HashMap<AccountId, RewardCounter>) -> (works: HashMap<AccountId, Work>)
    ensures
        works@ == work_snapshot(counters@),
{
    let entries = list_entries(counters);
    let mut works: HashMap<AccountId, Work> = HashMap::new();
    let mut i: usize = 0;
    while i < entries.len()
        invariant
            i <= entries@.len(),
            lists(entries@, counters@),
            forall|id: AccountId|
                works@.contains_key(id) <==> exists|j: int|
                    0 <= j < i && (#[trigger] entries@[j]).0 == id,
            forall|id: AccountId| works@.contains_key(id) ==> works@[id] == counters@[id].work,
        decreases entries@.len() - i,
    {
        let (id, counter) = entries[i];
        let ghost before = works@;
        works.insert(id, counter.work);
        proof {
            assert forall|k: AccountId| works@.contains_key(k) implies exists|j: int|
                0 <= j < i + 1 && (#[trigger] entries@[j]).0 == k by {
                if k == id {
                    assert(entries@[i as int].0 == k);
                } else {
                    assert(before.contains_key(k));
                    let j = choose|j: int| 0 <= j < i && (#[trigger] entries@[j]).0 == k;
                    assert(0 <= j < i + 1 && entries@[j].0 == k);
                }
            }
        }
        i = i + 1;
    }
    proof {
        assert forall|id: AccountId| works@.contains_key(id) <==> counters@.contains_key(id) by {
            if counters@.contains_key(id) {
                let j = choose|j: int| 0 <= j < entries@.len() && entries@[j].0 == id;
                assert(entries@[j].0 == id);
            }
            if works@.contains_key(id) {
                let j = choose|j: int| 0 <= j < i && (#[trigger] entries@[j]).0 == id;
                assert(counters@.contains_key(entries@[j].0));
            }
        }
        assert(works@ =~= work_snapshot(counters@));
    }
    works
}

/// What was rewarded once is not rewarded again: after a payment for an
/// identifier went through, a second payment for the same identifier is
/// refused as already rewarded and changes nothing, so that what is
/// accumulated is what the first payment alone accumulated.
pub proof fn lemma_rewarded_once<A: RewardAlgo>(
    algo: A,
    before: Ledger,
    id: Seq<u8>,
    total: Money,
    paid: Ledger,
    again: Money,
    after: Ledger,
    result: Result<Money, Error>,
)
    requires
        FarmingSystem::<A>::pays(algo, before, id, total, paid, Ok(total)),
        FarmingSystem::<A>::pays(algo, paid, id, again, after, result),
    ensures
        result == Err::<Money, Error>(Error::DataExists),
        after == paid,
{
    let first = algo.split(total, work_snapshot(before.counters));
    assert(before.accumulate(id, first) is Ok);
    assert(paid.processed.contains(id));
}

/// A way to calculate rewards, and the accumulation of the rewards calculated.
pub struct FarmingSystem<A: RewardAlgo> {
    farming_algo: A,
    accumulation: Accumulation,
}

impl<A: RewardAlgo> FarmingSystem<A> {
    /// The way in which the system calculates rewards.
    pub closed spec fn algo(&self) -> A {
        self.farming_algo
    }

    /// What the system has accumulated.
    pub closed spec fn ledger(&self) -> Ledger {
        self.accumulation@
    }

    /// Whether every account has done less than the largest amount of work, so
    /// that one more unit can be counted.
    pub open spec fn can_count_work(&self) -> bool {
        forall|id: AccountId| #[trigger]
            self.ledger().counters.contains_key(id) ==> self.ledger().counters[id].work < u64::MAX
    }

    /// A system that calculates with `farming_algo` and goes on from
    /// `accumulation`.
    pub fn new(farming_algo: A, accumulation: Accumulation) -> (system: Self)
        ensures
            system.algo() == farming_algo,
            system.ledger() == accumulation@,
    {
        Self { farming_algo, accumulation }
    }

    /// What the system has accumulated, to read.
    pub fn accumulation(&self) -> (accumulation: &Accumulation)
        ensures
            accumulation@ == self.ledger(),
    {
        &self.accumulation
    }

    /// Whether one more unit of work can be counted for every account, as a
    /// reward does.
    pub fn can_reward(&self) -> (can: bool)
        ensures
            can == self.can_count_work(),
    {
        let entries = list_entries(self.accumulation.get_all());
        let mut i: usize = 0;
        while i < entries.len()
            invariant
                i <= entries@.len(),
                lists(entries@, self.ledger().counters),
                forall|j: int| 0 <= j < i ==> (#[trigger] entries@[j]).1.work < u64::MAX,
            decreases entries@.len() - i,
        {
            let (_, counter) = entries[i];
            if counter.work == u64::MAX {
                proof {
                    assert(self.ledger().counters.contains_key(entries@[i as int].0));
                }
                return false;
            }
            i = i + 1;
        }
        proof {
            assert forall|id: AccountId| #[trigger]
                self.ledger().counters.contains_key(id) implies self.ledger().counters[id].work
                < u64::MAX by {
                let j = choose|j: int| 0 <= j < entries@.len() && entries@[j].0 == id;
                assert(entries@[j].1.work < u64::MAX);
            }
        }
        true
    }

    /// Adds an account with the work that its owner has done so far.
    pub fn add_account(&mut self, id: AccountId, work: Work) -> (result: Result<(), Error>)
        ensures
            final(self).algo() == old(self).algo(),
            match old(self).ledger().add_account(id, work) {
                Ok(e) => result is Ok && final(self).ledger() == old(self).ledger().apply(
                    Change::AccountAdded(e),
                ),
                Err(error) => result == Err::<(), Error>(error) && final(self).ledger() == old(
                    self,
                ).ledger(),
            },
    {
        match self.accumulation.add_account(id, work) {
            Ok(e) => {
                self.accumulation.apply(AccumulationEvent::AccountAdded(e));
                Ok(())
            },
            Err(error) => Err(error),
        }
    }

    /// Whether `after` and `result` are what, from `before`, the payment of
    /// `total` for what `id` identifies leaves and returns: the split of
    /// `total` by the work of all accounts is accumulated, unless the command
    /// is refused, and then nothing changes.
    pub open spec fn pays(
        algo: A,
        before: Ledger,
        id: Seq<u8>,
        total: Money,
        after: Ledger,
        result: Result<Money, Error>,
    ) -> bool {
        let distribution = algo.split(total, work_snapshot(before.counters));
        match before.accumulate(id, distribution) {
            Ok(e) => result == Ok::<Money, Error>(total) && after == before.apply(
                Change::RewardsAccumulated(e),
            ),
            Err(error) => result == Err::<Money, Error>(error) && after == before,
        }
    }

    /// Splits `total_reward` between all accounts by their work, and
    /// accumulates the shares, for what `data_hash` identifies. Returns
    /// `total_reward`.
    pub fn pay_reward(&mut self, data_hash: Vec<u8>, total_reward: Money) -> (result: Result<
        Money,
        Error,
    >)
        requires
            old(self).can_count_work(),
        ensures
            final(self).algo() == old(self).algo(),
            Self::pays(
                old(self).algo(),
                old(self).ledger(),
                data_hash@,
                total_reward,
                final(self).ledger(),
                result,
            ),
    {
        let accounts_work = snapshot_work(self.accumulation.get_all());
        let distribution = self.farming_algo.distribute(total_reward, accounts_work);
        let ghost split = distribution@;
        match self.accumulation.accumulate(data_hash, distribution) {
            Ok(e) => {
                proof {
                    lemma_accepted_is_admitted(self.accumulation@, data_hash@, split);
                }
                self.accumulation.apply(AccumulationEvent::RewardsAccumulated(e));
                Ok(total_reward)
            },
            Err(error) => Err(error),
        }
    }

    /// Rewards the storing of `num_bytes` bytes of the data that `data_hash`
    /// identifies. `scale` turns the cost of that work into the total reward:
    /// above the cost where money is issued, below it where money is taken out
    /// of circulation. The total is then paid as by `pay_reward`.
    pub fn reward<F: FnOnce(Money) -> Money>(
        &mut self,
        data_hash: Vec<u8>,
        num_bytes: u64,
        scale: F,
    ) -> (result: Result<Money, Error>)
        requires
            old(self).can_count_work(),
            num_bytes + old(self).algo().base_cost().nano <= u64::MAX,
            scale.requires(
                (Money { nano: (num_bytes + old(self).algo().base_cost().nano) as u64 },),
            ),
        ensures
            final(self).algo() == old(self).algo(),
            exists|total: Money|
                #![trigger Self::pays(old(self).algo(), old(self).ledger(), data_hash@, total, final(self).ledger(), result)]
                scale.ensures(
                    (Money { nano: (num_bytes + old(self).algo().base_cost().nano) as u64 },),
                    total,
                ) && Self::pays(
                    old(self).algo(),
                    old(self).ledger(),
                    data_hash@,
                    total,
                    final(self).ledger(),
                    result,
                ),
    {
        let work_cost = self.farming_algo.work_cost(num_bytes);
        let total_reward = scale(work_cost);
        self.pay_reward(data_hash, total_reward)
    }

    /// Pays out what `id` has accumulated, and removes its counter.
    pub fn claim(&mut self, id: AccountId) -> (result: Result<RewardCounter, Error>)
        ensures
            final(self).algo() == old(self).algo(),
            match old(self).ledger().claim(id) {
                Ok(e) => result == Ok::<RewardCounter, Error>(e.rewards) && final(self).ledger()
                    == old(self).ledger().apply(Change::RewardsClaimed(e)),
                Err(error) => result == Err::<RewardCounter, Error>(error) && final(self).ledger()
                    == old(self).ledger(),
            },
    {
        match self.accumulation.claim(id) {
            Ok(e) => {
                self.accumulation.apply(AccumulationEvent::RewardsClaimed(e));
                Ok(e.rewards)
            },
            Err(error) => Err(error),
        }
    }
}

} // verus!
