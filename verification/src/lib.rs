//! Detection of restart-coordination signals published by staked validators.
//!
//! The crate holds the decisions of a point-in-time observation of a gossip
//! cluster: which vote accounts are eligible for consideration, when a failed
//! fetch of the validator set is tried again, which lookup keys belong to a
//! validator identity, and which (identity, kind) pairs a replicated store
//! holds. Network access, the gossip overlay and the dwell before the store is
//! read belong to the program around this library.

pub mod eligible;
pub mod fetch;
pub mod identity;
pub mod identity_map;
pub mod matcher;
pub mod record;
pub mod seq_facts;
