//! Parallel state-execution core of an account-based ledger processor.
//!
//! Independent execution units run concurrently against a shared account
//! cache; their revision-tagged outputs are merged back deterministically so
//! that the final transition set equals the one a strictly sequential
//! execution would produce.

pub mod account;
pub mod cache;
pub mod queue;
pub mod executor;
pub mod args;
