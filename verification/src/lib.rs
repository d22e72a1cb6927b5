//! An in-memory ledger engine.
//!
//! The engine replays an ordered sequence of transaction records against a
//! set of client accounts, enforcing balance invariants and a dispute
//! lifecycle, and exposes a final per-client balance snapshot together with
//! a log of rejected transactions.
//!
//! Amounts are fixed-point integers: one unit stands for one ten-thousandth
//! of the currency, so four fractional decimal digits are representable.

pub mod account;
pub mod laws;
pub mod ledger;
pub mod model;
pub mod record;
pub mod safety;
pub mod sums;
