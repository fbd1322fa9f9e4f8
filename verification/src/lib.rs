//! A personal work-hour ledger: dated, signed hour entries with soft deletion,
//! an undo log of logical operations, and exact balances and per-date totals.

pub mod amount;
pub mod date;
pub mod error;
pub mod laws;
pub mod ledger;
pub mod lemmas;
pub mod model;
pub mod schema;
pub mod text;
