//! Keeps a flat directory of placeholder files in step with the names that a
//! token sequence generates: every run of consecutive tokens, joined by `_`
//! and suffixed with `.txt`.
//!
//! The library computes; the caller lists the directory, fetches the tokens
//! and applies the steps that `reconcile::reconcile` returns.
pub mod fields;
pub mod names;
pub mod reconcile;
pub mod outcome;
