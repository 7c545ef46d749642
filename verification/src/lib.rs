//! Personal-finance ledger: accounts, entries, budgets and the reports
//! derived from them, with every balance computed from the entries.

pub mod api;
pub mod auth;
pub mod cli;
pub mod error;
pub mod laws;
pub mod models;
pub mod text;
pub mod period;
pub mod services;
pub mod settings;
pub mod storage;
pub mod sync;
