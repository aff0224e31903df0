//! Era rotation and stake-weighted sequencer election.
//!
//! The library keeps the state of a sequencer-selection component: the era
//! counters, the bounded history of era start sessions, the elected roster of
//! each era and the registry of staked amounts. Session notifications drive
//! the era state machine; every era that is triggered runs the election.
pub mod types;
pub mod election;
pub mod era;
pub mod pallet;
