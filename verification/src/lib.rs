//! A governance-style proposal-and-voting ledger.
//!
//! Users create time-boxed proposals, cast token-weighted votes while a
//! proposal is active, and the ledger tracks vote tallies and per-user token
//! balances.  Caller identity and the current time are supplied by the host
//! environment as plain arguments; every rule of the ledger itself is stated
//! in contracts and proved.

pub mod codec;
pub mod date;
pub mod service;
pub mod stores;
pub mod types;
