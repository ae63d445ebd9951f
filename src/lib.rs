//! A multi-index room (lobby) store whose mutations are metered against a
//! per-account storage balance.

pub mod account;
pub mod contract;
pub mod enumerable;
pub mod invariants;
pub mod lifecycle;
pub mod room;
pub mod storage_tracker;
