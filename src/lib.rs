//! Replays per-account transaction logs into balance snapshots, using an
//! exact fixed-point amount type.

pub mod amount;
pub mod client;
pub mod database;

use vstd::prelude::*;

verus! {

/// Identifies an account.
pub type ClientId = u16;

/// Identifies a deposit or withdrawal; disputes, resolves and chargebacks
/// refer to one by it.
pub type TransactionId = u32;

} // verus!
