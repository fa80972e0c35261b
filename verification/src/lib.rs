//! Farming rewards: per-account accounting of work and reward, the proportional
//! split of a newly earned reward, and the agreement of several replicas on one
//! counter.

pub mod accumulation;
pub mod calculation;
pub mod event;
pub mod farming;
pub mod listing;
pub mod money;
pub mod shares;
pub mod sort;
pub mod sums;
pub mod utils;

pub use crate::accumulation::Accumulation;
pub use crate::calculation::{RewardAlgo, StorageRewards};
pub use crate::event::{AccountAdded, AccumulationEvent, RewardsAccumulated, RewardsClaimed};
pub use crate::farming::FarmingSystem;
pub use crate::money::{AccountId, Error, Money, RewardCounter, Work};
pub use crate::utils::RewardCounterSet;
