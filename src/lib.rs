//! The transaction core of an e-cash wallet: amounts and denominations, keyset counters,
//! spending conditions, proof selection, the proof store with its pending and commit steps,
//! quote state machines, the token and secret encodings, and restore scanning. Network calls
//! and blind-signature cryptography stay outside; their results come in as arguments, or
//! through a few trusted wrappers around cdk.

use vstd::prelude::*;

/// Amounts and their split into power-of-two denominations.
pub mod amount;
/// Byte-level encoding shared by the token and secret formats.
pub mod codec;
/// Options of the wallet's commands and the decisions taken on them.
pub mod commands;
/// Spending conditions: building locks and verifying witnesses.
pub mod conditions;
/// The error taxonomy of the wallet core.
pub mod error;
/// Per-mint keysets and their derivation counters.
pub mod keyset;
/// The mint-quote state machine and melt amount checks.
pub mod quote;
/// Recovering signed outputs by derivation index.
pub mod restore;
/// Locks written into and read back from proof secrets.
pub mod secret;
/// Choosing proofs that cover an amount.
pub mod selector;
/// The wallet's proof store, balances and multi-step operations.
pub mod store;
/// Proofs, tokens and the token string encoding.
pub mod token;

verus! {

} // verus!
