//! The settlement side of an optimistic rollup: an authority that takes
//! blocks of executed transfers on trust, takes fraud challenges against
//! them, and decides each challenge, once it has waited long enough, by
//! replaying the disputed transfer.
//!
//! The pieces, from the bottom up:
//!
//! - `supply`: the sum of all balances of a ledger, and how it moves.
//! - `ledger`: balances and the one rule that changes them, the transfer.
//! - `replay`: re-execution of recorded transfers from a known ledger.
//! - `baseline`: the ledger taken to precede the first block, found by
//!   taking that block's transfers back from the ledger it claims.
//! - `reversal`: when that baseline is the right one.
//! - `block`, `challenge`, `error`: the records that go in and come out.
//! - `model`: the verifier as a mathematical state machine.
//! - `l1_verifier`: the verifier itself, proved against the model.
//! - `laws`: what holds of the verifier whatever it is given.
//!
//! A ledger is modelled as a `Map<u64, nat>` from account to balance, a
//! verifier as a `VerifierModel`; every contract is stated over those.

pub mod baseline;
pub mod block;
pub mod challenge;
pub mod error;
pub mod l1_verifier;
pub mod laws;
pub mod ledger;
pub mod model;
pub mod replay;
pub mod reversal;
pub mod supply;
