//! Versions of the on-disk layout, and what opening a file of each version
//! does.
use vstd::prelude::*;

use crate::error::{AppError, Result};
use crate::text::owned;

verus! {

/// The layout this build reads and writes.
pub const SCHEMA_VERSION: i32 = 2;

/// What opening a database file takes before it can be used.
#[derive(Debug, Clone, Copy, PartialEq, Eq, Structural)]
pub enum SchemaStep {
    /// Already at the current layout.
    Ready,
    /// A fresh file: create the tables and seed them.
    Create,
    /// Version 1: add the sync columns and the sync-state table (an
    /// additive change, so existing rows survive as they are).
    UpgradeFromV1,
}

/// The step for a file whose recorded version is `version`. A version-0
/// file that still holds the old tables (transactions, buckets) cannot be
/// read, nor can a newer layout or an unknown older one.
pub fn schema_step(version: i32, legacy_tables: bool, path: &str) -> (r: Result<SchemaStep>)
    ensures
        version == SCHEMA_VERSION ==> r == Ok::<SchemaStep, AppError>(SchemaStep::Ready),
        version == 0 && legacy_tables ==> (r matches Err(AppError::LegacySchema { path: p })
            && p@ == path@),
        version == 0 && !legacy_tables ==> r == Ok::<SchemaStep, AppError>(SchemaStep::Create),
        version == 1 ==> r == Ok::<SchemaStep, AppError>(SchemaStep::UpgradeFromV1),
        version > SCHEMA_VERSION ==> r == Err::<SchemaStep, AppError>(
            AppError::SchemaTooNew { found: version, expected: SCHEMA_VERSION },
        ),
        version < 0 ==> r == Err::<SchemaStep, AppError>(AppError::SchemaTooOld { found: version }),
{
    if version == SCHEMA_VERSION {
        Ok(SchemaStep::Ready)
    } else if version == 0 && legacy_tables {
        Err(AppError::LegacySchema { path: owned(path) })
    } else if version == 0 {
        Ok(SchemaStep::Create)
    } else if version == 1 {
        Ok(SchemaStep::UpgradeFromV1)
    } else if version > SCHEMA_VERSION {
        Err(AppError::SchemaTooNew { found: version, expected: SCHEMA_VERSION })
    } else {
        Err(AppError::SchemaTooOld { found: version })
    }
}

} // verus!
