//! Amounts, work counters and the per-account reward counter.

use vstd::prelude::*;

verus! {

/// Identifies an account. Identifiers are only compared, hashed and ordered.
pub type AccountId = u64;

/// The smallest unit of work. It only grows during the lifetime of a worker.
pub type Work = u64;

/// An amount of money, counted in its indivisible unit, the nano.
#[derive(Clone, Copy, PartialEq, Eq, PartialOrd, Ord, Hash, Debug, Structural)]
pub struct Money {
    pub nano: u64,
}

/// Why a command was refused.
#[derive(Clone, Copy, PartialEq, Eq, Debug, Structural)]
pub enum Error {
    /// The account already has a counter.
    BalanceExists,
    /// The rewarded occurrence was accumulated before.
    DataExists,
    /// An account's reward would exceed the largest amount.
    ExcessiveValue,
    /// The account has no counter.
    NoSuchKey,
    /// The expected number of replicas is even or below three.
    InvalidOperation,
}

/// The sum of two amounts, where it is an amount.
pub open spec fn spec_checked_add(a: u64, b: u64) -> Option<u64> {
    if a + b <= u64::MAX {
        Some((a + b) as u64)
    } else {
        None
    }
}

/// Calls `safe_nd::Money::checked_add` on the two amounts of nanos. The contract
/// claims that it returns their sum where that fits in 64 bits, and nothing
/// otherwise.
#[verifier::external_body]
fn nd_checked_add(a: u64, b: u64) -> (sum: Option<u64>)
    ensures
        sum == spec_checked_add(a, b),
{
    safe_nd::Money::from_nano(a).checked_add(safe_nd::Money::from_nano(b)).map(
        safe_nd::Money::as_nano,
    )
}

impl Money {
    /// No money.
    pub fn zero() -> (m: Money)
        ensures
            m.nano == 0,
    {
        Money { nano: 0 }
    }

    /// The amount of `value` nanos.
    pub fn from_nano(value: u64) -> (m: Money)
        ensures
            m.nano == value,
    {
        Money { nano: value }
    }

    /// The amount in nanos.
    pub fn as_nano(self) -> (value: u64)
        ensures
            value == self.nano,
    {
        self.nano
    }

    /// `self + rhs`, or nothing where the sum is no amount.
    pub fn checked_add(self, rhs: Money) -> (sum: Option<Money>)
        ensures
            sum == match spec_checked_add(self.nano, rhs.nano) {
                Some(n) => Some(Money { nano: n }),
                None => None,
            },
    {
        match nd_checked_add(self.nano, rhs.nano) {
            Some(n) => Some(Money { nano: n }),
            None => None,
        }
    }
}

/// One account's accumulated reward and work.
#[derive(Clone, Copy, PartialEq, Eq, Debug, Structural)]
pub struct RewardCounter {
    /// The reward accumulated since the last claim.
    pub reward: Money,
    /// The work accumulated over the lifetime of the worker.
    pub work: Work,
}

/// Calls `safe_nd::RewardCounter::add` on a counter of the same reward and
/// work. The contract claims that it returns nothing where the reward plus
/// `amount` exceeds 64 bits, and otherwise a counter with that sum as its
/// reward and with one more unit of work. The work must be below the largest,
/// the increment being unchecked there.
#[verifier::external_body]
fn nd_counter_add(counter: RewardCounter, amount: Money) -> (next: Option<RewardCounter>)
    requires
        counter.work < u64::MAX,
    ensures
        next == counter.spec_add(amount),
{
    let counter = safe_nd::RewardCounter {
        reward: safe_nd::Money::from_nano(counter.reward.nano),
        work: counter.work,
    };
    counter.add(safe_nd::Money::from_nano(amount.nano)).map(
        |c| RewardCounter { reward: Money { nano: c.reward.as_nano() }, work: c.work },
    )
}

impl RewardCounter {
    /// The counter after one more reward of `amount`: the reward grows by
    /// `amount` and the work by one. Nothing where the reward would exceed the
    /// largest amount.
    pub open spec fn spec_add(self, amount: Money) -> Option<RewardCounter> {
        if self.reward.nano + amount.nano <= u64::MAX {
            Some(
                RewardCounter {
                    reward: Money { nano: (self.reward.nano + amount.nano) as u64 },
                    work: (self.work + 1) as u64,
                },
            )
        } else {
            None
        }
    }

    /// Accounts for one more reward of `amount`.
    pub fn add(&self, amount: Money) -> (next: Option<RewardCounter>)
        requires
            self.work < u64::MAX,
        ensures
            next == self.spec_add(amount),
    {
        nd_counter_add(*self, amount)
    }
}

impl Default for RewardCounter {
    fn default() -> (c: RewardCounter)
        ensures
            c == (RewardCounter { reward: Money { nano: 0 }, work: 0 }),
    {
        RewardCounter { reward: Money { nano: 0 }, work: 0 }
    }
}

} // verus!
