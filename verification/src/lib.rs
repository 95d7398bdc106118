//! Verified core of a ckBTC minter: the in-memory bookkeeping that bridges a
//! Bitcoin network and a ledger of wrapped tokens.
//!
//! The state object tracks a UTXO set owned by many accounts, a withdrawal
//! pipeline (pending queue, in-flight map, submitted and stuck transactions,
//! finalized ring buffer, replacement chains), a suspended-UTXO registry, a
//! reimbursement ledger, and fee accounting.  Every transition is specified by
//! a contract and proved to preserve the state's global invariants.

pub mod alist;
pub mod checker;
pub mod domain;
pub mod fees;
pub mod finalize;
pub mod ingest;
pub mod laws;
pub mod lifecycle;
pub mod mode;
pub mod pipeline;
pub mod processable;
pub mod records;
pub mod reimburse;
pub mod replacement;
pub mod resubmission;
pub mod semantic_eq;
pub mod state;
pub mod suspended;
pub mod util;
