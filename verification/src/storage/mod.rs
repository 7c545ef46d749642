//! Storage: the pure ledger math (`ledger`, `grouping`), ordered tables
//! (`table`) and the in-memory store that enforces the ledger's rules
//! (`memory`).
use vstd::prelude::*;

use crate::models::{Account, Budget, Concept, Config, Entry};

pub mod grouping;
pub mod ledger;
pub mod memory;
pub mod remote;
pub mod schema;
pub mod table;

verus! {

/// A slice of the ledger fetched from a remote store since some cursor.
/// Applying it to a mirror advances the mirror's cursor to `cursor`.
pub struct LedgerDelta {
    /// The remote's revision once these rows were fetched.
    pub cursor: i64,
    pub accounts: Vec<Account>,
    pub entries: Vec<Entry>,
    pub budgets: Vec<Budget>,
    pub concepts: Vec<Concept>,
    pub config: Vec<Config>,
    /// Rows deleted since the cursor: table name and primary key.
    pub deletes: Vec<(String, i64)>,
}

impl LedgerDelta {
    /// A delta with nothing in it, at cursor 0.
    pub fn new() -> (r: LedgerDelta)
        ensures
            r.cursor == 0,
            r.accounts@.len() == 0 && r.entries@.len() == 0 && r.budgets@.len() == 0
                && r.concepts@.len() == 0 && r.config@.len() == 0 && r.deletes@.len() == 0,
    {
        LedgerDelta {
            cursor: 0,
            accounts: Vec::new(),
            entries: Vec::new(),
            budgets: Vec::new(),
            concepts: Vec::new(),
            config: Vec::new(),
            deletes: Vec::new(),
        }
    }

    /// Whether the delta carries no row and no deletion.
    pub fn is_empty(&self) -> (r: bool)
        ensures
            r == (self.accounts@.len() == 0 && self.entries@.len() == 0 && self.budgets@.len() == 0
                && self.concepts@.len() == 0 && self.config@.len() == 0 && self.deletes@.len() == 0),
    {
        self.accounts.len() == 0 && self.entries.len() == 0 && self.budgets.len() == 0
            && self.concepts.len() == 0 && self.config.len() == 0 && self.deletes.len() == 0
    }
}

/// The delta carries no row and no deletion.
pub open spec fn delta_empty(d: LedgerDelta) -> bool {
    &&& d.accounts@.len() == 0
    &&& d.entries@.len() == 0
    &&& d.budgets@.len() == 0
    &&& d.concepts@.len() == 0
    &&& d.config@.len() == 0
    &&& d.deletes@.len() == 0
}

impl Default for LedgerDelta {
    fn default() -> (r: LedgerDelta)
        ensures
            r.cursor == 0,
            r.accounts@.len() == 0 && r.entries@.len() == 0 && r.budgets@.len() == 0
                && r.concepts@.len() == 0 && r.config@.len() == 0 && r.deletes@.len() == 0,
    {
        LedgerDelta::new()
    }
}

} // verus!
