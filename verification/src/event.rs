//! The events by which the accumulation of rewards changes.

use crate::money::{AccountId, Money, RewardCounter, Work};
use std::collections::HashMap;
use vstd::prelude::*;

verus! {

/// An account was added.
#[derive(Clone, Copy, PartialEq, Eq, Debug, Structural)]
pub struct AccountAdded {
    /// The account id.
    pub id: AccountId,
    /// The work accumulated by the owner of the account so far.
    pub work: Work,
}

/// A reward and its distribution were calculated, and are accumulated with
/// this event.
#[derive(Clone, PartialEq, Eq, Debug)]
pub struct RewardsAccumulated {
    /// Identifies what was rewarded, such as the hash of a piece of data, so
    /// that it is rewarded only once.
    pub id: Vec<u8>,
    /// The amount for each account.
    pub distribution: HashMap<AccountId, Money>,
}

/// The accumulated reward of an account was claimed: the reward is paid out,
/// and the work is carried on elsewhere.
#[derive(Clone, Copy, PartialEq, Eq, Debug, Structural)]
pub struct RewardsClaimed {
    /// The account.
    pub account: AccountId,
    /// What the account had accumulated.
    pub rewards: RewardCounter,
}

/// A change of the accumulation.
#[derive(Clone, PartialEq, Eq, Debug)]
pub enum AccumulationEvent {
    AccountAdded(AccountAdded),
    RewardsAccumulated(RewardsAccumulated),
    RewardsClaimed(RewardsClaimed),
}

/// What a `RewardsAccumulated` holds.
pub ghost struct Accumulated {
    pub id: Seq<u8>,
    pub distribution: Map<AccountId, Money>,
}

/// What an `AccumulationEvent` holds.
pub ghost enum Change {
    AccountAdded(AccountAdded),
    RewardsAccumulated(Accumulated),
    RewardsClaimed(RewardsClaimed),
}

impl View for RewardsAccumulated {
    type V = Accumulated;

    open spec fn view(&self) -> Accumulated {
        Accumulated { id: self.id@, distribution: self.distribution@ }
    }
}

impl View for AccumulationEvent {
    type V = Change;

    open spec fn view(&self) -> Change {
        match self {
            AccumulationEvent::AccountAdded(e) => Change::AccountAdded(*e),
            AccumulationEvent::RewardsAccumulated(e) => Change::RewardsAccumulated(e@),
            AccumulationEvent::RewardsClaimed(e) => Change::RewardsClaimed(*e),
        }
    }
}

} // verus!
