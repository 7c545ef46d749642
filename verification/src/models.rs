//! The ledger's records. Money is held in integer cents; balances and
//! totals, which sum any number of amounts, are `i128`.
use vstd::prelude::*;

use crate::error::{AppError, Result};
use crate::period::{is_canonical_date, validate_date, Period};
use crate::text::{concat, owned, str_eq};

verus! {

/// Clones an optional string, keeping its value.
pub fn clone_opt(o: &Option<String>) -> (r: Option<String>)
    ensures
        r == *o,
{
    match o {
        Some(s) => Some(s.clone()),
        None => None,
    }
}

/// An optional `&str` as an owned optional string.
pub fn opt_owned(o: Option<&str>) -> (r: Option<String>)
    ensures
        r is Some <==> o is Some,
        r matches Some(s) ==> s@ == o->0@,
{
    match o {
        Some(s) => Some(owned(s)),
        None => None,
    }
}

// ---------------------------------------------------------------------------
// Account kinds.
// ---------------------------------------------------------------------------

#[derive(Clone, Copy, Debug, PartialEq, Eq, Structural)]
pub enum AccountKind {
    Spending,
    Emergency,
    Target,
    Credit,
}

/// The stored name of an account kind.
pub open spec fn account_kind_name(k: AccountKind) -> Seq<char> {
    match k {
        AccountKind::Spending => "spending"@,
        AccountKind::Emergency => "emergency"@,
        AccountKind::Target => "target"@,
        AccountKind::Credit => "credit"@,
    }
}

/// The kind whose stored name is `s`, if any.
pub open spec fn account_kind_named(s: Seq<char>) -> Option<AccountKind> {
    if s == "spending"@ {
        Some(AccountKind::Spending)
    } else if s == "emergency"@ {
        Some(AccountKind::Emergency)
    } else if s == "target"@ {
        Some(AccountKind::Target)
    } else if s == "credit"@ {
        Some(AccountKind::Credit)
    } else {
        None
    }
}

/// Every account kind's name reads back as that kind.
pub proof fn lemma_account_kind_names()
    ensures
        forall|k: AccountKind| account_kind_named(#[trigger] account_kind_name(k)) == Some(k),
{
    reveal_strlit("spending");
    reveal_strlit("emergency");
    reveal_strlit("target");
    reveal_strlit("credit");
    assert("spending"@.len() == 8 && "emergency"@.len() == 9);
    assert("target"@.len() == 6 && "credit"@.len() == 6);
    assert("target"@[0] != "credit"@[0]);
    assert("spending"@ != "emergency"@ && "spending"@ != "target"@ && "spending"@ != "credit"@);
    assert("emergency"@ != "target"@ && "emergency"@ != "credit"@ && "target"@ != "credit"@);
}

impl AccountKind {
    pub fn as_str(&self) -> (r: &'static str)
        ensures
            r@ == account_kind_name(*self),
    {
        match self {
            AccountKind::Spending => "spending",
            AccountKind::Emergency => "emergency",
            AccountKind::Target => "target",
            AccountKind::Credit => "credit",
        }
    }

    /// The kind stored under `s`; any other text is refused.
    pub fn from_str(s: &str) -> (r: Result<AccountKind>)
        ensures
            account_kind_named(s@) matches Some(k) ==> r == Ok::<AccountKind, AppError>(k),
            account_kind_named(s@) is None ==> (r matches Err(e) && e is Invalid),
    {
        if str_eq(s, "spending") {
            Ok(AccountKind::Spending)
        } else if str_eq(s, "emergency") {
            Ok(AccountKind::Emergency)
        } else if str_eq(s, "target") {
            Ok(AccountKind::Target)
        } else if str_eq(s, "credit") {
            Ok(AccountKind::Credit)
        } else {
            Err(AppError::Invalid(concat(concat("Unknown account kind: '", s).as_str(), "'")))
        }
    }

    /// Whether this account represents an asset (vs. a liability like credit).
    pub fn is_asset(&self) -> (r: bool)
        ensures
            r == (*self != AccountKind::Credit),
    {
        !matches!(self, AccountKind::Credit)
    }
}

/// The kind stored under `s`, reading any unknown text as a spending
/// account.
pub fn parse_kind(s: &str) -> (r: AccountKind)
    ensures
        r == match account_kind_named(s@) {
            Some(k) => k,
            None => AccountKind::Spending,
        },
{
    match AccountKind::from_str(s) {
        Ok(k) => k,
        Err(_) => AccountKind::Spending,
    }
}

// ---------------------------------------------------------------------------
// Accounts.
// ---------------------------------------------------------------------------

/// Shape used to create a new account.
#[derive(Debug)]
pub struct NewAccount {
    pub name: String,
    pub kind: AccountKind,
    pub target_amount: Option<i64>,
    pub credit_limit: Option<i64>,
    pub liquid: bool,
}

impl Clone for NewAccount {
    fn clone(&self) -> (r: NewAccount)
        ensures
            r == *self,
    {
        NewAccount {
            name: self.name.clone(),
            kind: self.kind,
            target_amount: self.target_amount,
            credit_limit: self.credit_limit,
            liquid: self.liquid,
        }
    }
}

impl NewAccount {
    pub fn spending(name: &str) -> (r: NewAccount)
        ensures
            r.name@ == name@,
            r.kind == AccountKind::Spending,
            r.target_amount is None,
            r.credit_limit is None,
            r.liquid,
    {
        NewAccount {
            name: owned(name),
            kind: AccountKind::Spending,
            target_amount: None,
            credit_limit: None,
            liquid: true,
        }
    }

    pub fn emergency(name: &str) -> (r: NewAccount)
        ensures
            r.name@ == name@,
            r.kind == AccountKind::Emergency,
            r.target_amount is None,
            r.credit_limit is None,
            r.liquid,
    {
        NewAccount {
            name: owned(name),
            kind: AccountKind::Emergency,
            target_amount: None,
            credit_limit: None,
            liquid: true,
        }
    }

    /// A savings bucket, with an optional goal; a goal must be positive.
    pub fn target(name: &str, target_amount: Option<i64>) -> (r: Result<NewAccount>)
        ensures
            r is Ok <==> (target_amount matches Some(t) ==> t > 0),
            r matches Ok(a) ==> a.name@ == name@ && a.kind == AccountKind::Target
                && a.target_amount == target_amount && a.credit_limit is None && a.liquid,
            r matches Err(e) ==> e is Invalid,
    {
        if let Some(t) = target_amount {
            if t <= 0 {
                return Err(AppError::Invalid(owned("Target amount must be positive")));
            }
        }
        Ok(
            NewAccount {
                name: owned(name),
                kind: AccountKind::Target,
                target_amount,
                credit_limit: None,
                liquid: true,
            },
        )
    }

    pub fn credit(name: &str, credit_limit: Option<i64>) -> (r: NewAccount)
        ensures
            r.name@ == name@,
            r.kind == AccountKind::Credit,
            r.target_amount is None,
            r.credit_limit == credit_limit,
            r.liquid,
    {
        NewAccount {
            name: owned(name),
            kind: AccountKind::Credit,
            target_amount: None,
            credit_limit,
            liquid: true,
        }
    }

    /// The same account, marked non-liquid: the automatic emergency-fund
    /// contribution never fires on income landing here.
    pub fn restricted(self) -> (r: NewAccount)
        ensures
            r == (NewAccount { liquid: false, ..self }),
    {
        let mut s = self;
        s.liquid = false;
        s
    }
}

/// An account as stored, with no balance attached.
#[derive(Debug)]
pub struct Account {
    pub id: i64,
    pub name: String,
    pub kind: AccountKind,
    pub target_amount: Option<i64>,
    pub credit_limit: Option<i64>,
    pub liquid: bool,
    pub archived: bool,
}

impl Clone for Account {
    fn clone(&self) -> (r: Account)
        ensures
            r == *self,
    {
        Account {
            id: self.id,
            name: self.name.clone(),
            kind: self.kind,
            target_amount: self.target_amount,
            credit_limit: self.credit_limit,
            liquid: self.liquid,
            archived: self.archived,
        }
    }
}

/// An account read back together with its derived balance.
#[derive(Debug)]
pub struct AccountBalance {
    pub id: i64,
    pub name: String,
    pub kind: AccountKind,
    pub target_amount: Option<i64>,
    pub credit_limit: Option<i64>,
    pub liquid: bool,
    pub archived: bool,
    /// Signed cents; negative on a credit account means debt.
    pub balance: i128,
}

impl Clone for AccountBalance {
    fn clone(&self) -> (r: AccountBalance)
        ensures
            r == *self,
    {
        AccountBalance {
            id: self.id,
            name: self.name.clone(),
            kind: self.kind,
            target_amount: self.target_amount,
            credit_limit: self.credit_limit,
            liquid: self.liquid,
            archived: self.archived,
            balance: self.balance,
        }
    }
}

/// `balance` cents as hundredths of a percent of `target` (> 0), clamped
/// to 0..=10000.
pub open spec fn progress_bp(balance: int, target: int) -> int {
    if balance <= 0 {
        0
    } else if balance >= target {
        10000
    } else {
        balance * 10000 / target
    }
}

/// The debt a balance represents on an account of kind `k`.
pub open spec fn debt_of(k: AccountKind, balance: int) -> int {
    if k == AccountKind::Credit && balance < 0 {
        -balance
    } else {
        0
    }
}

impl AccountBalance {
    /// Progress toward `target_amount` in hundredths of a percent, clamped
    /// to 0..=10000 (i.e. 0%..=100%). `None` for accounts without a goal.
    pub fn progress_pct(&self) -> (r: Option<i64>)
        ensures
            r is Some <==> self.target_amount is Some,
            r matches Some(p) ==> p == (if self.target_amount->0 <= 0 {
                0
            } else {
                progress_bp(self.balance as int, self.target_amount->0 as int)
            }),
    {
        match self.target_amount {
            Some(t) => {
                if t <= 0 {
                    Some(0)
                } else if self.balance <= 0 {
                    Some(0)
                } else if self.balance >= t as i128 {
                    Some(10000)
                } else {
                    let b = self.balance;
                    assert(0 < b * 10000 <= 10000 * t) by (nonlinear_arith)
                        requires
                            0 < b < t,
                    ;
                    assert(b * 10000 / (t as int) <= 10000) by (nonlinear_arith)
                        requires
                            0 < b < t,
                    ;
                    Some((b * 10000 / (t as i128)) as i64)
                }
            },
            None => None,
        }
    }

    /// Positive amount owed, or 0 if not a credit account or in credit.
    pub fn debt(&self) -> (r: i128)
        requires
            self.balance > i128::MIN,
        ensures
            r == debt_of(self.kind, self.balance as int),
    {
        if self.kind == AccountKind::Credit && self.balance < 0 {
            -self.balance
        } else {
            0
        }
    }

    /// What is left of the credit limit after the current debt.
    pub fn available_credit(&self) -> (r: Option<i128>)
        requires
            self.balance > i128::MIN + 9223372036854775808,
        ensures
            r is Some <==> self.credit_limit is Some,
            r matches Some(a) ==> a == self.credit_limit->0 - debt_of(
                self.kind,
                self.balance as int,
            ),
    {
        match self.credit_limit {
            Some(limit) => Some(limit as i128 - self.debt()),
            None => None,
        }
    }

    pub fn is_asset(&self) -> (r: bool)
        ensures
            r == (self.kind != AccountKind::Credit),
    {
        self.kind.is_asset()
    }
}

// ---------------------------------------------------------------------------
// Entries.
// ---------------------------------------------------------------------------

#[derive(Clone, Copy, Debug, PartialEq, Eq, Structural)]
pub enum EntryKind {
    Income,
    Expense,
    Transfer,
    /// Opening balance seeded via `setup`: shaped like an income but never
    /// counted as one.
    Opening,
}

/// The name an entry kind is stored and shown under.
pub open spec fn entry_kind_name(k: EntryKind) -> Seq<char> {
    match k {
        EntryKind::Income => "income"@,
        EntryKind::Expense => "expense"@,
        EntryKind::Transfer => "transfer"@,
        EntryKind::Opening => "opening"@,
    }
}

/// The entry kind a name stands for, if any.
pub open spec fn entry_kind_named(s: Seq<char>) -> Option<EntryKind> {
    if s == "income"@ {
        Some(EntryKind::Income)
    } else if s == "expense"@ {
        Some(EntryKind::Expense)
    } else if s == "transfer"@ {
        Some(EntryKind::Transfer)
    } else if s == "opening"@ {
        Some(EntryKind::Opening)
    } else {
        None
    }
}

/// Every entry kind's name reads back as that kind.
pub proof fn lemma_entry_kind_names()
    ensures
        forall|k: EntryKind| entry_kind_named(#[trigger] entry_kind_name(k)) == Some(k),
{
    reveal_strlit("income");
    reveal_strlit("expense");
    reveal_strlit("transfer");
    reveal_strlit("opening");
    assert("income"@.len() == 6 && "expense"@.len() == 7);
    assert("transfer"@.len() == 8 && "opening"@.len() == 7);
    assert("expense"@[0] != "opening"@[0]);
    assert("income"@ != "expense"@ && "income"@ != "transfer"@ && "income"@ != "opening"@);
    assert("expense"@ != "transfer"@ && "expense"@ != "opening"@ && "transfer"@ != "opening"@);
}

impl EntryKind {
    pub fn as_str(&self) -> (r: &'static str)
        ensures
            r@ == entry_kind_name(*self),
    {
        match self {
            EntryKind::Income => "income",
            EntryKind::Expense => "expense",
            EntryKind::Transfer => "transfer",
            EntryKind::Opening => "opening",
        }
    }

    pub fn from_str(s: &str) -> (r: Result<EntryKind>)
        ensures
            entry_kind_named(s@) matches Some(k) ==> r == Ok::<EntryKind, AppError>(k),
            entry_kind_named(s@) is None ==> (r matches Err(e) && e is Invalid),
    {
        if str_eq(s, "income") {
            Ok(EntryKind::Income)
        } else if str_eq(s, "expense") {
            Ok(EntryKind::Expense)
        } else if str_eq(s, "transfer") {
            Ok(EntryKind::Transfer)
        } else if str_eq(s, "opening") {
            Ok(EntryKind::Opening)
        } else {
            Err(AppError::Invalid(concat(concat("Unknown entry kind: '", s).as_str(), "'")))
        }
    }
}

/// Insert shape. The four constructors make an invalid endpoint
/// combination unrepresentable; a store checks the same shape again.
#[derive(Debug)]
pub struct NewEntry {
    pub date: String,
    pub kind: EntryKind,
    pub amount: i64,
    pub from_account_id: Option<i64>,
    pub to_account_id: Option<i64>,
    pub concept: Option<String>,
    pub subconcept: Option<String>,
    pub description: Option<String>,
}

impl Clone for NewEntry {
    fn clone(&self) -> (r: NewEntry)
        ensures
            r == *self,
    {
        NewEntry {
            date: self.date.clone(),
            kind: self.kind,
            amount: self.amount,
            from_account_id: self.from_account_id,
            to_account_id: self.to_account_id,
            concept: clone_opt(&self.concept),
            subconcept: clone_opt(&self.subconcept),
            description: clone_opt(&self.description),
        }
    }
}

/// The checks every entry constructor starts with.
fn validate_date_and_amount(date: &str, amount: i64) -> (r: Result<()>)
    ensures
        r is Ok <==> is_canonical_date(date@) && amount > 0,
        r matches Err(e) ==> e is Invalid,
{
    validate_date(date)?;
    if amount <= 0 {
        return Err(AppError::Invalid(owned("Amount must be positive")));
    }
    Ok(())
}

impl NewEntry {
    pub fn income(date: &str, amount: i64, to: i64, concept: &str) -> (r: Result<NewEntry>)
        ensures
            r is Ok <==> is_canonical_date(date@) && amount > 0,
            r matches Ok(e) ==> e.date@ == date@ && e.kind == EntryKind::Income && e.amount
                == amount && e.from_account_id is None && e.to_account_id == Some(to)
                && e.concept is Some && e.concept->0@ == concept@ && e.subconcept is None
                && e.description is None,
            r matches Err(e) ==> e is Invalid,
    {
        validate_date_and_amount(date, amount)?;
        Ok(
            NewEntry {
                date: owned(date),
                kind: EntryKind::Income,
                amount,
                from_account_id: None,
                to_account_id: Some(to),
                concept: Some(owned(concept)),
                subconcept: None,
                description: None,
            },
        )
    }

    pub fn expense(date: &str, amount: i64, from: i64, concept: &str) -> (r: Result<NewEntry>)
        ensures
            r is Ok <==> is_canonical_date(date@) && amount > 0,
            r matches Ok(e) ==> e.date@ == date@ && e.kind == EntryKind::Expense && e.amount
                == amount && e.from_account_id == Some(from) && e.to_account_id is None
                && e.concept is Some && e.concept->0@ == concept@ && e.subconcept is None
                && e.description is None,
            r matches Err(e) ==> e is Invalid,
    {
        validate_date_and_amount(date, amount)?;
        Ok(
            NewEntry {
                date: owned(date),
                kind: EntryKind::Expense,
                amount,
                from_account_id: Some(from),
                to_account_id: None,
                concept: Some(owned(concept)),
                subconcept: None,
                description: None,
            },
        )
    }

    /// A movement between two different accounts; neither spending nor income.
    pub fn transfer(date: &str, amount: i64, from: i64, to: i64) -> (r: Result<NewEntry>)
        ensures
            r is Ok <==> is_canonical_date(date@) && amount > 0 && from != to,
            r matches Ok(e) ==> e.date@ == date@ && e.kind == EntryKind::Transfer && e.amount
                == amount && e.from_account_id == Some(from) && e.to_account_id == Some(to)
                && e.concept is None && e.subconcept is None && e.description is None,
            r matches Err(e) ==> e is Invalid,
    {
        validate_date_and_amount(date, amount)?;
        if from == to {
            return Err(
                AppError::Invalid(
                    owned("Transfer source and destination cannot be the same account"),
                ),
            );
        }
        Ok(
            NewEntry {
                date: owned(date),
                kind: EntryKind::Transfer,
                amount,
                from_account_id: Some(from),
                to_account_id: Some(to),
                concept: None,
                subconcept: None,
                description: None,
            },
        )
    }

    /// An opening balance: no concept, described as "Saldo inicial".
    pub fn opening(date: &str, amount: i64, to: i64) -> (r: Result<NewEntry>)
        ensures
            r is Ok <==> is_canonical_date(date@) && amount > 0,
            r matches Ok(e) ==> e.date@ == date@ && e.kind == EntryKind::Opening && e.amount
                == amount && e.from_account_id is None && e.to_account_id == Some(to)
                && e.concept is None && e.subconcept is None && e.description is Some
                && e.description->0@ == "Saldo inicial"@,
            r matches Err(e) ==> e is Invalid,
    {
        validate_date_and_amount(date, amount)?;
        Ok(
            NewEntry {
                date: owned(date),
                kind: EntryKind::Opening,
                amount,
                from_account_id: None,
                to_account_id: Some(to),
                concept: None,
                subconcept: None,
                description: Some(owned("Saldo inicial")),
            },
        )
    }

    pub fn with_subconcept(self, s: Option<&str>) -> (r: Self)
        ensures
            r.date == self.date && r.kind == self.kind && r.amount == self.amount
                && r.from_account_id == self.from_account_id && r.to_account_id
                == self.to_account_id && r.concept == self.concept && r.description
                == self.description,
            r.subconcept is Some <==> s is Some,
            r.subconcept matches Some(x) ==> x@ == s->0@,
    {
        let mut e = self;
        e.subconcept = opt_owned(s);
        e
    }

    pub fn with_description(self, d: Option<&str>) -> (r: Self)
        ensures
            r.date == self.date && r.kind == self.kind && r.amount == self.amount
                && r.from_account_id == self.from_account_id && r.to_account_id
                == self.to_account_id && r.concept == self.concept && r.subconcept
                == self.subconcept,
            r.description is Some <==> d is Some,
            r.description matches Some(x) ==> x@ == d->0@,
    {
        let mut e = self;
        e.description = opt_owned(d);
        e
    }
}

/// A stored entry, with the names of the accounts it touches.
#[derive(Debug)]
pub struct Entry {
    pub id: i64,
    pub date: String,
    pub kind: EntryKind,
    pub amount: i64,
    pub from_account_id: Option<i64>,
    pub to_account_id: Option<i64>,
    pub from_account: Option<String>,
    pub to_account: Option<String>,
    pub concept: Option<String>,
    pub subconcept: Option<String>,
    pub description: Option<String>,
}

impl Clone for Entry {
    fn clone(&self) -> (r: Entry)
        ensures
            r == *self,
    {
        Entry {
            id: self.id,
            date: self.date.clone(),
            kind: self.kind,
            amount: self.amount,
            from_account_id: self.from_account_id,
            to_account_id: self.to_account_id,
            from_account: clone_opt(&self.from_account),
            to_account: clone_opt(&self.to_account),
            concept: clone_opt(&self.concept),
            subconcept: clone_opt(&self.subconcept),
            description: clone_opt(&self.description),
        }
    }
}

/// Signed effect of an entry on an account: +amount if it landed there,
/// -amount if it left, 0 if the account was not involved.
pub open spec fn entry_delta(e: Entry, account_id: i64) -> int {
    (if e.to_account_id == Some(account_id) {
        e.amount as int
    } else {
        0
    }) - (if e.from_account_id == Some(account_id) {
        e.amount as int
    } else {
        0
    })
}

impl Entry {
    pub fn delta_for(&self, account_id: i64) -> (r: i128)
        ensures
            r == entry_delta(*self, account_id),
    {
        let mut delta: i128 = 0;
        if self.to_account_id == Some(account_id) {
            delta = delta + self.amount as i128;
        }
        if self.from_account_id == Some(account_id) {
            delta = delta - self.amount as i128;
        }
        delta
    }
}

/// Total and number of a month's expenses under one concept.
#[derive(Debug)]
pub struct ConceptSummary {
    pub concept: String,
    pub total: i128,
    pub count: u64,
}

impl Clone for ConceptSummary {
    fn clone(&self) -> (r: ConceptSummary)
        ensures
            r == *self,
    {
        ConceptSummary { concept: self.concept.clone(), total: self.total, count: self.count }
    }
}

/// A monthly limit for a concept. `period` is the canonical "YYYY-MM".
#[derive(Debug)]
pub struct Budget {
    pub id: Option<i64>,
    pub concept: String,
    pub monthly_limit: i64,
    pub period: String,
}

impl Clone for Budget {
    fn clone(&self) -> (r: Budget)
        ensures
            r == *self,
    {
        Budget {
            id: self.id,
            concept: self.concept.clone(),
            monthly_limit: self.monthly_limit,
            period: self.period.clone(),
        }
    }
}

/// A spending or income category ("expense", "income" or "both").
#[derive(Debug)]
pub struct Concept {
    pub id: Option<i64>,
    pub name: String,
    pub concept_type: String,
}

impl Clone for Concept {
    fn clone(&self) -> (r: Concept)
        ensures
            r == *self,
    {
        Concept { id: self.id, name: self.name.clone(), concept_type: self.concept_type.clone() }
    }
}

/// One configuration key and its value.
#[derive(Debug)]
pub struct Config {
    pub key: String,
    pub value: String,
}

impl Clone for Config {
    fn clone(&self) -> (r: Config)
        ensures
            r == *self,
    {
        Config { key: self.key.clone(), value: self.value.clone() }
    }
}

/// Which entries a listing returns; every field that is set narrows it.
#[derive(Debug)]
pub struct EntryFilter {
    pub period: Option<Period>,
    /// Only entries dated on or before this date.
    pub up_to_date: Option<String>,
    pub kind: Option<EntryKind>,
    pub concept: Option<String>,
    /// Entries touching this account on either side.
    pub account_id: Option<i64>,
    pub limit: Option<u32>,
}

impl Default for EntryFilter {
    fn default() -> (r: EntryFilter)
        ensures
            r.period is None && r.up_to_date is None && r.kind is None && r.concept is None
                && r.account_id is None && r.limit is None,
    {
        EntryFilter {
            period: None,
            up_to_date: None,
            kind: None,
            concept: None,
            account_id: None,
            limit: None,
        }
    }
}

/// A correction to an existing entry; each field that is set replaces
/// the stored one.
#[derive(Debug)]
pub struct EntryUpdate {
    pub date: Option<String>,
    pub amount: Option<i64>,
    pub concept: Option<String>,
    pub subconcept: Option<String>,
    pub description: Option<String>,
    pub from_account_id: Option<i64>,
    pub to_account_id: Option<i64>,
}

impl Default for EntryUpdate {
    fn default() -> (r: EntryUpdate)
        ensures
            r.date is None && r.amount is None && r.concept is None && r.subconcept is None
                && r.description is None && r.from_account_id is None && r.to_account_id is None,
    {
        EntryUpdate {
            date: None,
            amount: None,
            concept: None,
            subconcept: None,
            description: None,
            from_account_id: None,
            to_account_id: None,
        }
    }
}

} // verus!
