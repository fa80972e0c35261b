//! The book keeping of rewards. A piece of data is rewarded only once.

use crate::calculation::amount_of;
use crate::event::{
    AccountAdded, Accumulated, AccumulationEvent, Change, RewardsAccumulated, RewardsClaimed,
};
use crate::listing::list_entries;
use crate::money::{AccountId, Error, Money, RewardCounter, Work};
use crate::shares::{enumerates, Share};
use std::collections::HashMap;
use vstd::prelude::*;

verus! {

/// Identifies what was rewarded.
pub type Id = Vec<u8>;

/// What an accumulation holds: the identifiers of what was rewarded, and the
/// counter of each account.
pub ghost struct Ledger {
    pub processed: Set<Seq<u8>>,
    pub counters: Map<AccountId, RewardCounter>,
}

impl Ledger {
    /// The counter of `account`, or an empty counter where it has none.
    pub open spec fn counter_or_default(self, account: AccountId) -> RewardCounter {
        if self.counters.contains_key(account) {
            self.counters[account]
        } else {
            RewardCounter { reward: Money { nano: 0 }, work: 0 }
        }
    }

    /// The counter of `account`, if it has one.
    pub open spec fn get(self, account: AccountId) -> Option<RewardCounter> {
        if self.counters.contains_key(account) {
            Some(self.counters[account])
        } else {
            None
        }
    }

    /// Whether some account that has a counter would, with its amount of
    /// `distribution`, hold more than the largest amount.
    pub open spec fn exceeds(self, distribution: Map<AccountId, Money>) -> bool {
        exists|account: AccountId|
            #![trigger distribution.contains_key(account)]
            distribution.contains_key(account) && self.counters.contains_key(account)
                && self.counters[account].reward.nano + distribution[account].nano > u64::MAX
    }

    /// The command to add an account: refused where the account has a counter.
    pub open spec fn add_account(self, id: AccountId, work: Work) -> Result<AccountAdded, Error> {
        if self.counters.contains_key(id) {
            Err(Error::BalanceExists)
        } else {
            Ok(AccountAdded { id, work })
        }
    }

    /// The command to accumulate a distribution: refused where `id` was
    /// rewarded before, and where an account would hold too much.
    pub open spec fn accumulate(self, id: Seq<u8>, distribution: Map<AccountId, Money>) -> Result<
        Accumulated,
        Error,
    > {
        if self.processed.contains(id) {
            Err(Error::DataExists)
        } else if self.exceeds(distribution) {
            Err(Error::ExcessiveValue)
        } else {
            Ok(Accumulated { id, distribution })
        }
    }

    /// The command to claim what `account` accumulated: refused where it has no
    /// counter.
    pub open spec fn claim(self, account: AccountId) -> Result<RewardsClaimed, Error> {
        if self.counters.contains_key(account) {
            Ok(RewardsClaimed { account, rewards: self.counters[account] })
        } else {
            Err(Error::NoSuchKey)
        }
    }

    /// Whether the counter of `account` has room for `amount` and for one more
    /// unit of work.
    pub open spec fn has_room(self, account: AccountId, amount: Money) -> bool {
        &&& self.counter_or_default(account).reward.nano + amount.nano <= u64::MAX
        &&& self.counter_or_default(account).work < u64::MAX
    }

    /// Whether the counter of each account of `distribution` has room for its
    /// amount and for one more unit of work.
    pub open spec fn has_room_for(self, distribution: Map<AccountId, Money>) -> bool {
        forall|account: AccountId|
            #![trigger distribution.contains_key(account)]
            distribution.contains_key(account) ==> self.has_room(account, distribution[account])
    }

    /// Whether `change` can be applied: there must be room for a distribution.
    pub open spec fn admits(self, change: Change) -> bool {
        match change {
            Change::RewardsAccumulated(e) => self.has_room_for(e.distribution),
            _ => true,
        }
    }

    /// The counter of `account` after `amount` was accumulated for it.
    pub open spec fn rewarded(self, account: AccountId, amount: Money) -> RewardCounter {
        let counter = self.counter_or_default(account);
        RewardCounter {
            reward: Money { nano: (counter.reward.nano + amount.nano) as u64 },
            work: (counter.work + 1) as u64,
        }
    }

    /// What the accumulation holds after `change`.
    pub open spec fn apply(self, change: Change) -> Ledger {
        match change {
            Change::AccountAdded(e) => Ledger {
                processed: self.processed,
                counters: self.counters.insert(
                    e.id,
                    RewardCounter { reward: Money { nano: 0 }, work: e.work },
                ),
            },
            Change::RewardsAccumulated(e) => Ledger {
                processed: self.processed.insert(e.id),
                counters: Map::new(
                    |account: AccountId|
                        self.counters.contains_key(account) || e.distribution.contains_key(
                            account,
                        ),
                    |account: AccountId|
                        if e.distribution.contains_key(account) {
                            self.rewarded(account, e.distribution[account])
                        } else {
                            self.counters[account]
                        },
                ),
            },
            Change::RewardsClaimed(e) => Ledger {
                processed: self.processed,
                counters: self.counters.remove(e.account),
            },
        }
    }
}

/// What was accumulated for an identifier is accumulated once: after the
/// event of a successful `accumulate` was applied, any `accumulate` with the
/// same identifier is refused as already rewarded.
pub proof fn lemma_accumulated_once(
    ledger: Ledger,
    id: Seq<u8>,
    distribution: Map<AccountId, Money>,
    again: Map<AccountId, Money>,
)
    requires
        ledger.accumulate(id, distribution) is Ok,
    ensures
        ledger.apply(Change::RewardsAccumulated(Accumulated { id, distribution })).accumulate(
            id,
            again,
        ) == Err::<Accumulated, Error>(Error::DataExists),
        ledger.accumulate(id, distribution) == Ok::<Accumulated, Error>(
            Accumulated { id, distribution },
        ),
{
}

/// A claim removes: after the event of a successful `claim` was applied, the
/// account has no counter, and a second `claim` is refused.
pub proof fn lemma_claim_removes(ledger: Ledger, account: AccountId)
    requires
        ledger.claim(account) is Ok,
    ensures
        ({
            let claimed = RewardsClaimed { account, rewards: ledger.counters[account] };
            let after = ledger.apply(Change::RewardsClaimed(claimed));
            &&& ledger.claim(account) == Ok::<RewardsClaimed, Error>(claimed)
            &&& after.get(account) is None
            &&& after.claim(account) == Err::<RewardsClaimed, Error>(Error::NoSuchKey)
        }),
{
}

/// An amount that would take the reward of an account past the largest amount
/// is refused as excessive, where the identifier was not rewarded before.
pub proof fn lemma_overflow_rejected(
    ledger: Ledger,
    id: Seq<u8>,
    distribution: Map<AccountId, Money>,
    account: AccountId,
)
    requires
        !ledger.processed.contains(id),
        distribution.contains_key(account),
        ledger.counters.contains_key(account),
        ledger.counters[account].reward.nano + distribution[account].nano > u64::MAX,
    ensures
        ledger.accumulate(id, distribution) == Err::<Accumulated, Error>(Error::ExcessiveValue),
{
}

/// Where a distribution is accepted for accounts that all have a counter with
/// work below the largest, its event can be applied.
pub proof fn lemma_accepted_is_admitted(
    ledger: Ledger,
    id: Seq<u8>,
    distribution: Map<AccountId, Money>,
)
    requires
        ledger.accumulate(id, distribution) is Ok,
        forall|account: AccountId|
            distribution.contains_key(account) ==> #[trigger] ledger.counter_or_default(
                account,
            ).work < u64::MAX,
    ensures
        ledger.admits(Change::RewardsAccumulated(Accumulated { id, distribution })),
{
    assert forall|account: AccountId|
        #![trigger distribution.contains_key(account)]
        distribution.contains_key(account) implies ledger.has_room(
        account,
        distribution[account],
    ) by {
        assert(ledger.counter_or_default(account).work < u64::MAX);
    }
}

/// The identifiers that a list holds.
pub open spec fn ids_of(list: Seq<Vec<u8>>) -> Set<Seq<u8>> {
    Set::new(|id: Seq<u8>| exists|i: int| 0 <= i < list.len() && (#[trigger] list[i])@ == id)
}

/// Whether two identifiers are the same.
fn same_id(a: &Vec<u8>, b: &Vec<u8>) -> (same: bool)
    ensures
        same == (a@ == b@),
{
    if a.len() != b.len() {
        return false;
    }
    let mut i: usize = 0;
    while i < a.len()
        invariant
            a@.len() == b@.len(),
            i <= a@.len(),
            forall|j: int| 0 <= j < i ==> a@[j] == b@[j],
        decreases a@.len() - i,
    {
        if a[i] != b[i] {
            return false;
        }
        i = i + 1;
    }
    assert(a@ =~= b@);
    true
}

/// Whether `list` holds `id`.
fn holds_id(list: &Vec<Vec<u8>>, id: &Vec<u8>) -> (held: bool)
    ensures
        held == ids_of(list@).contains(id@),
{
    let mut i: usize = 0;
    while i < list.len()
        invariant
            i <= list@.len(),
            forall|j: int| 0 <= j < i ==> (#[trigger] list@[j])@ != id@,
        decreases list@.len() - i,
    {
        if same_id(&list[i], id) {
            return true;
        }
        i = i + 1;
    }
    false
}

/// Lists the accounts of `distribution`, each with its amount in nanos.
fn list_amounts(distribution: &HashMap<AccountId, Money>) -> (shares: Vec<Share>)
    ensures
        enumerates(shares@, amount_of(distribution@), distribution@.dom()),
{
    let entries = list_entries(distribution);
    let mut shares: Vec<Share> = Vec::new();
    let mut i: usize = 0;
    while i < entries.len()
        invariant
            i <= entries@.len(),
            shares@.len() == i,
            forall|j: int|
                0 <= j < i ==> #[trigger] shares@[j] == (Share {
                    amount: entries@[j].1.nano,
                    account: entries@[j].0,
                }),
        decreases entries@.len() - i,
    {
        let (account, amount) = entries[i];
        shares.push(Share { amount: amount.as_nano(), account });
        i = i + 1;
    }
    proof {
        assert forall|id: u64| #[trigger] distribution@.dom().contains(id) implies exists|j: int|
            0 <= j < shares@.len() && shares@[j].account == id by {
            assert(distribution@.contains_key(id));
            let j = choose|j: int| 0 <= j < entries@.len() && entries@[j].0 == id;
            assert(shares@[j].account == id);
        }
    }
    shares
}

/// Whether `account` is among the first `n` of `entries`.
pub open spec fn listed(entries: Seq<Share>, n: int, account: AccountId) -> bool {
    exists|j: int| 0 <= j < n && (#[trigger] entries[j]).account == account
}

/// The counters after the first `n` of `entries` were accumulated on the
/// counters of `ledger`.
pub open spec fn partly_rewarded(ledger: Ledger, entries: Seq<Share>, n: int) -> Map<
    AccountId,
    RewardCounter,
> {
    Map::new(
        |account: AccountId| ledger.counters.contains_key(account) || listed(entries, n, account),
        |account: AccountId|
            if listed(entries, n, account) {
                let j = choose|j: int| 0 <= j < n && (#[trigger] entries[j]).account == account;
                ledger.rewarded(account, Money { nano: entries[j].amount })
            } else {
                ledger.counters[account]
            },
    )
}

/// Accumulating all the entries of a distribution gives the counters that the
/// ledger holds after the distribution was applied.
proof fn lemma_all_rewarded(ledger: Ledger, e: Accumulated, entries: Seq<Share>)
    requires
        enumerates(entries, amount_of(e.distribution), e.distribution.dom()),
    ensures
        partly_rewarded(ledger, entries, entries.len() as int) == ledger.apply(
            Change::RewardsAccumulated(e),
        ).counters,
{
    let n = entries.len() as int;
    let done = partly_rewarded(ledger, entries, n);
    let after = ledger.apply(Change::RewardsAccumulated(e)).counters;
    assert forall|account: AccountId| listed(entries, n, account) <==> e.distribution.contains_key(
        account,
    ) by {
        if e.distribution.contains_key(account) {
            assert(e.distribution.dom().contains(account));
            let j = choose|j: int| 0 <= j < entries.len() && entries[j].account == account;
            assert(entries[j].account == account);
        }
        if listed(entries, n, account) {
            let j = choose|j: int| 0 <= j < n && (#[trigger] entries[j]).account == account;
            assert(e.distribution.dom().contains(entries[j].account));
        }
    }
    assert forall|account: AccountId| done.contains_key(account) implies done[account]
        == after[account] by {
        if listed(entries, n, account) {
            let j = choose|j: int| 0 <= j < n && (#[trigger] entries[j]).account == account;
            assert(e.distribution.dom().contains(entries[j].account));
            assert(entries[j].amount == amount_of(e.distribution)(entries[j].account));
        }
    }
    assert(done =~= after);
}

/// Adding an identifier to a list adds it to the identifiers that the list
/// holds.
proof fn lemma_ids_of_push(list: Seq<Vec<u8>>, id: Vec<u8>)
    ensures
        ids_of(list.push(id)) == ids_of(list).insert(id@),
{
    let longer = list.push(id);
    assert forall|s: Seq<u8>| ids_of(longer).contains(s) <==> ids_of(list).insert(id@).contains(
        s,
    ) by {
        if ids_of(longer).contains(s) {
            let i = choose|i: int| 0 <= i < longer.len() && (#[trigger] longer[i])@ == s;
            if i < list.len() {
                assert(list[i]@ == s);
            }
        }
        if ids_of(list).contains(s) {
            let i = choose|i: int| 0 <= i < list.len() && (#[trigger] list[i])@ == s;
            assert(longer[i]@ == s);
        }
        if s == id@ {
            assert(longer[list.len() as int]@ == s);
        }
    }
    assert(ids_of(longer) =~= ids_of(list).insert(id@));
}

/// The accumulated rewards and work of accounts, with the record of what was
/// rewarded.
#[derive(Clone)]
pub struct Accumulation {
    idempotency: Vec<Id>,
    accumulated: HashMap<AccountId, RewardCounter>,
}

impl View for Accumulation {
    type V = Ledger;

    closed spec fn view(&self) -> Ledger {
        Ledger { processed: ids_of(self.idempotency@), counters: self.accumulated@ }
    }
}

impl Accumulation {
    /// An accumulation that goes on from the identifiers of what was rewarded
    /// before, and from the counters accumulated before. An identifier that
    /// is listed twice counts once.
    pub fn new(idempotency: Vec<Id>, accumulated: HashMap<AccountId, RewardCounter>) -> (acc: Self)
        ensures
            acc@.processed == ids_of(idempotency@),
            acc@.counters == accumulated@,
    {
        Self { idempotency, accumulated }
    }

    /// The counter of `account`, if it has one.
    pub fn get(&self, account: &AccountId) -> (counter: Option<&RewardCounter>)
        ensures
            match counter {
                Some(c) => self@.get(*account) == Some(*c),
                None => self@.get(*account) is None,
            },
    {
        self.accumulated.get(account)
    }

    /// The counters of all accounts.
    pub fn get_all(&self) -> (all: &HashMap<AccountId, RewardCounter>)
        ensures
            all@ == self@.counters,
    {
        &self.accumulated
    }

    /// The command to add an account with the work it has done so far. Nothing
    /// is changed.
    pub fn add_account(&self, id: AccountId, work: Work) -> (result: Result<AccountAdded, Error>)
        ensures
            result == self@.add_account(id, work),
    {
        if self.accumulated.contains_key(&id) {
            return Err(Error::BalanceExists);
        }
        Ok(AccountAdded { id, work })
    }

    /// The command to accumulate a distribution for what `id` identifies.
    /// Nothing is changed.
    pub fn accumulate(&self, id: Id, distribution: HashMap<AccountId, Money>) -> (result: Result<
        RewardsAccumulated,
        Error,
    >)
        ensures
            match result {
                Ok(e) => self@.accumulate(id@, distribution@) == Ok::<Accumulated, Error>(e@)
                    && e.id == id && e.distribution == distribution,
                Err(error) => self@.accumulate(id@, distribution@) == Err::<Accumulated, Error>(
                    error,
                ),
            },
    {
        if holds_id(&self.idempotency, &id) {
            return Err(Error::DataExists);
        }
        let entries = list_amounts(&distribution);
        let mut i: usize = 0;
        while i < entries.len()
            invariant
                i <= entries@.len(),
                !self@.processed.contains(id@),
                enumerates(entries@, amount_of(distribution@), distribution@.dom()),
                forall|j: int|
                    0 <= j < i ==> !(self.accumulated@.contains_key((#[trigger] entries@[j]).account)
                        && self.accumulated@[entries@[j].account].reward.nano + entries@[j].amount
                        > u64::MAX),
            decreases entries@.len() - i,
        {
            let entry = entries[i];
            if let Some(existing) = self.accumulated.get(&entry.account) {
                if existing.reward.checked_add(Money::from_nano(entry.amount)).is_none() {
                    proof {
                        assert(distribution@.dom().contains(entries@[i as int].account));
                        assert(distribution@.contains_key(entry.account));
                        assert(entry.amount == amount_of(distribution@)(entry.account));
                        assert(self@.exceeds(distribution@));
                    }
                    return Err(Error::ExcessiveValue);
                }
            }
            i = i + 1;
        }
        proof {
            assert forall|account: AccountId|
                #![trigger distribution@.contains_key(account)]
                distribution@.contains_key(account) implies !(self.accumulated@.contains_key(
                account,
            ) && self.accumulated@[account].reward.nano + distribution@[account].nano > u64::MAX) by {
                assert(distribution@.dom().contains(account));
                let j = choose|j: int| 0 <= j < entries@.len() && entries@[j].account == account;
                assert(entries@[j].amount == amount_of(distribution@)(entries@[j].account));
            }
        }
        Ok(RewardsAccumulated { id, distribution })
    }

    /// Applies a change. The event must pass `admits`, as does one that
    /// `accumulate` returned, when no account has done the largest amount of
    /// work; any event of the other kinds does.
    pub fn apply(&mut self, event: AccumulationEvent)
        requires
            old(self)@.admits(event@),
        ensures
            final(self)@ == old(self)@.apply(event@),
    {
        match event {
            AccumulationEvent::AccountAdded(e) => {
                self.accumulated.insert(e.id, RewardCounter { reward: Money::zero(), work: e.work });
            },
            AccumulationEvent::RewardsAccumulated(e) => {
                let ghost ledger = old(self)@;
                let entries = list_amounts(&e.distribution);
                let mut i: usize = 0;
                while i < entries.len()
                    invariant
                        i <= entries@.len(),
                        ledger == old(self)@,
                        ledger.admits(Change::RewardsAccumulated(e@)),
                        enumerates(entries@, amount_of(e@.distribution), e@.distribution.dom()),
                        self.idempotency == old(self).idempotency,
                        self.accumulated@ == partly_rewarded(ledger, entries@, i as int),
                    decreases entries@.len() - i,
                {
                    let entry = entries[i];
                    let ghost before = self.accumulated@;
                    proof {
                        assert(e@.distribution.dom().contains(entries@[i as int].account));
                        assert(e@.distribution.contains_key(entry.account));
                        assert(entry.amount == amount_of(e@.distribution)(entry.account));
                        assert(!listed(entries@, i as int, entry.account));
                        assert(ledger.has_room(entry.account, e@.distribution[entry.account]));
                    }
                    let existing = match self.accumulated.get(&entry.account) {
                        None => RewardCounter::default(),
                        Some(counter) => *counter,
                    };
                    assert(existing == ledger.counter_or_default(entry.account));
                    let next = existing.add(Money::from_nano(entry.amount)).unwrap();
                    self.accumulated.insert(entry.account, next);
                    proof {
                        let after = partly_rewarded(ledger, entries@, i + 1);
                        assert forall|account: AccountId| listed(entries@, i + 1, account) <==> (
                        listed(entries@, i as int, account) || account == entry.account) by {
                            if listed(entries@, i + 1, account) {
                                let j = choose|j: int|
                                    0 <= j < i + 1 && (#[trigger] entries@[j]).account == account;
                                if j < i {
                                    assert(listed(entries@, i as int, account));
                                }
                            }
                            if listed(entries@, i as int, account) {
                                let j = choose|j: int|
                                    0 <= j < i && (#[trigger] entries@[j]).account == account;
                                assert(0 <= j < i + 1);
                            }
                            if account == entry.account {
                                assert(entries@[i as int].account == account);
                            }
                        }
                        assert forall|account: AccountId|
                            after.contains_key(account) implies self.accumulated@[account]
                            == after[account] by {
                            if account == entry.account {
                                let j = choose|j: int|
                                    0 <= j < i + 1 && (#[trigger] entries@[j]).account == account;
                                assert(j == i);
                            } else if listed(entries@, i as int, account) {
                                let j = choose|j: int|
                                    0 <= j < i && (#[trigger] entries@[j]).account == account;
                                let k = choose|k: int|
                                    0 <= k < i + 1 && (#[trigger] entries@[k]).account == account;
                                assert(j == k);
                            }
                        }
                        assert(self.accumulated@ =~= after);
                    }
                    i = i + 1;
                }
                proof {
                    lemma_all_rewarded(ledger, e@, entries@);
                    lemma_ids_of_push(self.idempotency@, e.id);
                }
                if !holds_id(&self.idempotency, &e.id) {
                    self.idempotency.push(e.id);
                } else {
                    assert(ids_of(self.idempotency@).insert(e.id@) =~= ids_of(self.idempotency@));
                }
            },
            AccumulationEvent::RewardsClaimed(e) => {
                self.accumulated.remove(&e.account);
            },
        }
    }

    /// The command to claim what `account` has accumulated. Nothing is
    /// changed.
    pub fn claim(&self, account: AccountId) -> (result: Result<RewardsClaimed, Error>)
        ensures
            result == self@.claim(account),
    {
        match self.accumulated.get(&account) {
            None => Err(Error::NoSuchKey),
            Some(rewards) => Ok(RewardsClaimed { account, rewards: *rewards }),
        }
    }
}

} // verus!
