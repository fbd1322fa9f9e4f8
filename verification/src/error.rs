//! The ways in which a ledger command can fail.

use vstd::prelude::*;

verus! {

/// Why a command was refused. A refused command leaves the ledger as it was.
#[derive(Clone, Copy, Debug, PartialEq, Eq, Structural)]
pub enum LedgerError {
    /// The applied schema version is not the latest known one.
    SchemaMismatch,
    /// A migration step failed, or the store is at a version no step leads on from.
    MigrationError,
    /// The amount is zero, or too large for the ledger to keep exact totals.
    InvalidAmount,
    /// A delete request named neither entry ids nor dates.
    NoSelector,
    /// Fewer logical operations are left to undo than were asked for.
    NothingToUndo,
    /// The store cannot take the rows, or holds rows that contradict one another.
    StorageError,
}

impl LedgerError {
    /// A short text for the operator.
    pub fn message(&self) -> (r: &'static str)
        ensures
            r@ == match *self {
                LedgerError::SchemaMismatch => "Database is not up to date with the latest schema"@,
                LedgerError::MigrationError => "Migration failed"@,
                LedgerError::InvalidAmount => "Time must be non-zero"@,
                LedgerError::NoSelector => "no selector"@,
                LedgerError::NothingToUndo => "Nothing to undo"@,
                LedgerError::StorageError => "Storage failure"@,
            },
    {
        match self {
            LedgerError::SchemaMismatch => "Database is not up to date with the latest schema",
            LedgerError::MigrationError => "Migration failed",
            LedgerError::InvalidAmount => "Time must be non-zero",
            LedgerError::NoSelector => "no selector",
            LedgerError::NothingToUndo => "Nothing to undo",
            LedgerError::StorageError => "Storage failure",
        }
    }
}

} // verus!
