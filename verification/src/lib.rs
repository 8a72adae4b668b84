//! Shared-expense ledger with a verified settlement engine.
//!
//! The library tracks transfers and weighted expense splits among a fixed
//! set of participants, normalises every amount to integer minor units of a
//! base currency through a fixed-point rate table, and computes a greedy
//! pairwise settlement plan together with any rounding residuals.

pub mod expense_report;
pub mod laws;
pub mod model;
pub mod money;
pub mod settle;
pub mod text;
pub mod types;
