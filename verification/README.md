# money_core

A personal-finance ledger kept from the terminal: accounts (cash, debit,
vouchers, credit cards), savings funds (an emergency fund and goals),
entries (income, expenses, transfers, opening balances) and informative
monthly budgets. Balances and reports are always derived from the entries.

The library is written in Verus: its functions carry `requires`/`ensures`
contracts that the verifier proves.

## Layout

- `src/` — the verified library.
  - `models.rs` — accounts, entries, budgets, concepts and their constructors.
  - `period.rs` — calendar months and dates (`YYYY-MM`, `YYYY-MM-DD`).
  - `storage/` — the in-memory store (`memory.rs`) with its constraints,
    balance and report derivations (`ledger.rs`, `grouping.rs`), ordered
    tables (`table.rs`), the schema check (`schema.rs`), the remote query and
    error protocol (`remote.rs`), and applying a remote delta to the local
    mirror (`memory/mirror.rs`).
  - `services/` — account, entry, report and setup rules.
  - `sync.rs` — choosing the backend, migrating a ledger into another store
    (whole, or step by step: `migration_step` decides each call the command
    line makes to the hosted store), absorbing a pull into the mirror.
  - `auth.rs`, `settings.rs`, `api.rs`, `cli.rs`, `error.rs`, `text.rs` —
    session handling, settings, the request/response shapes, the decisions
    behind the command line, errors and text helpers.
  - `laws.rs` — properties that span several operations, stated and proved.
- `tests/` — tests of the library on concrete values.
- `app/` — the command-line program: argument parsing, prompts, the SQLite
  file, the HTTP calls to the hosted store, and printing.

