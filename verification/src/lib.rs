//! A sortedness checker for source constructs: enum declarations and match
//! expressions whose entries (variants or arm patterns) must appear in a
//! total order over "sortable keys" (bare identifiers, qualified paths, and
//! the wildcard pattern, which sorts last).
//!
//! The crate holds the verified core: the key model and its total order,
//! the pattern classifier, the minimal-violation detector, and the
//! per-construct checking policy. Reading real syntax trees and emitting
//! compiler diagnostics is left to a thin unverified frontend.

pub mod lex;
pub mod check_sorting;
pub mod check;
pub mod sorted;
