//! A transaction-execution engine over a fixed in-memory ledger of named
//! accounts. Each transaction may withdraw from one account and deposit into
//! another; the engine runs every queued transaction exactly once, and the
//! ledger always equals some serial application of the transactions run so far.
use vstd::prelude::*;

pub mod ledger;
pub mod transaction;
pub mod executor;
pub mod serial;
pub mod engine;
