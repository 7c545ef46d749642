//! Operations a front end performs on a store.
pub mod account_service;
pub mod entry_service;
pub mod report_service;
pub mod setup_service;
