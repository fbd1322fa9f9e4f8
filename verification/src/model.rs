//! The mathematical model of the ledger: its rows as sequences, and what each
//! command makes of them.

use vstd::prelude::*;
use crate::amount::Amount;
use crate::date::Date;

verus! {

/// A single time-balance adjustment.
#[derive(Clone, Copy, Debug, PartialEq, Eq, Structural)]
pub struct Entry {
    /// Assigned by the ledger on creation: the entry's position, counted from 1.
    pub entry_id: usize,
    pub date: Date,
    pub amount: Amount,
    /// A deleted entry stays in the ledger but no balance or listing shows it.
    pub deleted: bool,
}

/// One row of the undo log: what one logical operation did to one entry.
#[derive(Clone, Copy, Debug, PartialEq, Eq, Structural)]
pub struct UndoRecord {
    /// The row's position in the log, counted from 1.
    pub row_id: usize,
    pub entry_id: usize,
    /// The entry's `deleted` flag before the operation.
    pub deleted_old: bool,
    /// Whether an undo has already reversed the operation.
    pub processed: bool,
    /// The logical operation that wrote the row, counted from 1.
    pub op_id: usize,
}

/// The total of the entries of one date.
#[derive(Clone, Copy, Debug, PartialEq, Eq, Structural)]
pub struct DateTotal {
    pub date: Date,
    pub total: Amount,
}

/// Which entries a delete request names.
pub enum Selection {
    Ids(Set<usize>),
    Dates(Set<Date>),
}

impl Selection {
    pub open spec fn selects(self, e: Entry) -> bool {
        match self {
            Selection::Ids(ids) => ids.contains(e.entry_id),
            Selection::Dates(dates) => dates.contains(e.date),
        }
    }
}

pub open spec fn abs(x: int) -> int {
    if x < 0 {
        -x
    } else {
        x
    }
}

/// The sum of the absolute amounts of all entries, deleted ones included.
pub open spec fn gross(entries: Seq<Entry>) -> int
    decreases entries.len(),
{
    if entries.len() == 0 {
        0
    } else {
        gross(entries.drop_last()) + abs(entries.last().amount.units as int)
    }
}

/// The sum of the amounts of the entries that are not deleted.
pub open spec fn live_sum(entries: Seq<Entry>) -> int
    decreases entries.len(),
{
    if entries.len() == 0 {
        0
    } else {
        live_sum(entries.drop_last()) + if entries.last().deleted {
            0
        } else {
            entries.last().amount.units as int
        }
    }
}

/// The sum of the amounts of the entries of `date` that are not deleted.
pub open spec fn date_sum(entries: Seq<Entry>, date: Date) -> int
    decreases entries.len(),
{
    if entries.len() == 0 {
        0
    } else {
        date_sum(entries.drop_last(), date) + if !entries.last().deleted && entries.last().date
            == date {
            entries.last().amount.units as int
        } else {
            0
        }
    }
}

/// Whether some entry of `date` is not deleted.
pub open spec fn has_live_date(entries: Seq<Entry>, date: Date) -> bool {
    exists|i: int| 0 <= i < entries.len() && !entries[i].deleted && entries[i].date == date
}

/// Whether the entry is not deleted and, where there is a bound, dated before it.
pub open spec fn live_before(e: Entry, bound: Option<Date>) -> bool {
    !e.deleted && match bound {
        Some(b) => e.date.before(b),
        None => true,
    }
}

/// Whether `rows` are the totals by date of the `limit` latest dates that have
/// an entry that is not deleted: one row for each such date, the latest date first.
pub open spec fn is_rollup(entries: Seq<Entry>, limit: nat, rows: Seq<DateTotal>) -> bool {
    &&& rows.len() <= limit
    &&& forall|i: int, j: int|
        0 <= i < j < rows.len() ==> (#[trigger] rows[j]).date.before((#[trigger] rows[i]).date)
    &&& forall|i: int|
        0 <= i < rows.len() ==> has_live_date(entries, (#[trigger] rows[i]).date)
            && rows[i].total.units == date_sum(entries, rows[i].date)
    &&& forall|d: Date| #[trigger]
        has_live_date(entries, d) ==> has_row(rows, d) || (rows.len() == limit
            && earlier_than_all(rows, d))
}

/// Whether one of the rows is for `date`.
pub open spec fn has_row(rows: Seq<DateTotal>, date: Date) -> bool {
    exists|i: int| 0 <= i < rows.len() && (#[trigger] rows[i]).date == date
}

/// Whether `date` comes before the date of every row.
pub open spec fn earlier_than_all(rows: Seq<DateTotal>, date: Date) -> bool {
    forall|i: int| 0 <= i < rows.len() ==> date.before((#[trigger] rows[i]).date)
}

/// The `limit` latest entries that are not deleted, the latest first.
pub open spec fn recent(entries: Seq<Entry>, limit: nat) -> Seq<Entry>
    decreases entries.len(),
{
    if entries.len() == 0 || limit == 0 {
        Seq::empty()
    } else if entries.last().deleted {
        recent(entries.drop_last(), limit)
    } else {
        seq![entries.last()] + recent(entries.drop_last(), (limit - 1) as nat)
    }
}

/// Whether a delete request changes the entry.
pub open spec fn hit(sel: Selection, e: Entry) -> bool {
    !e.deleted && sel.selects(e)
}

/// The entries after a delete request: each one it changes is marked deleted.
pub open spec fn marked(entries: Seq<Entry>, sel: Selection) -> Seq<Entry> {
    Seq::new(
        entries.len(),
        |i: int|
            if hit(sel, entries[i]) {
                Entry { deleted: true, ..entries[i] }
            } else {
                entries[i]
            },
    )
}

/// The undo rows that a delete request writes: one for each entry that it
/// changes, in the order of the entries, behind `rows` earlier rows.
pub open spec fn new_records(entries: Seq<Entry>, sel: Selection, rows: nat, op: nat) -> Seq<
    UndoRecord,
>
    decreases entries.len(),
{
    if entries.len() == 0 {
        Seq::empty()
    } else {
        let before = new_records(entries.drop_last(), sel, rows, op);
        if hit(sel, entries.last()) {
            before.push(
                UndoRecord {
                    row_id: (rows + before.len() + 1) as usize,
                    entry_id: entries.last().entry_id,
                    deleted_old: entries.last().deleted,
                    processed: false,
                    op_id: op as usize,
                },
            )
        } else {
            before
        }
    }
}

/// The number of logical operations that no undo has reversed yet.
pub open spec fn pending_count(ops: Seq<bool>) -> nat
    decreases ops.len(),
{
    if ops.len() == 0 {
        0
    } else {
        pending_count(ops.drop_last()) + if ops.last() {
            0nat
        } else {
            1nat
        }
    }
}

/// The position of the latest operation that no undo has reversed yet, or -1.
pub open spec fn last_pending(ops: Seq<bool>) -> int
    decreases ops.len(),
{
    if ops.len() == 0 {
        -1
    } else if !ops.last() {
        ops.len() - 1
    } else {
        last_pending(ops.drop_last())
    }
}

/// The entries with one undo row taken back: its entry has the flag it had before.
pub open spec fn restored(entries: Seq<Entry>, rec: UndoRecord) -> Seq<Entry> {
    let i = rec.entry_id - 1;
    if 0 <= i < entries.len() {
        entries.update(i, Entry { deleted: rec.deleted_old, ..entries[i] })
    } else {
        entries
    }
}

/// The entries with the rows of operation `op` taken back, the latest row first.
pub open spec fn reverted(entries: Seq<Entry>, log: Seq<UndoRecord>, op: int) -> Seq<Entry>
    decreases log.len(),
{
    if log.len() == 0 {
        entries
    } else {
        let next = if log.last().op_id == op {
            restored(entries, log.last())
        } else {
            entries
        };
        reverted(next, log.drop_last(), op)
    }
}

/// The log with the rows of operation `op` marked as processed.
pub open spec fn consumed(log: Seq<UndoRecord>, op: int) -> Seq<UndoRecord> {
    Seq::new(
        log.len(),
        |j: int|
            if log[j].op_id == op {
                UndoRecord { processed: true, ..log[j] }
            } else {
                log[j]
            },
    )
}

/// What a ledger holds: the entries, the undo log, and for each logical
/// operation whether it has been undone.
pub struct LedgerState {
    pub entries: Seq<Entry>,
    pub log: Seq<UndoRecord>,
    pub ops: Seq<bool>,
}

impl LedgerState {
    /// The rows agree with one another, and every total fits.
    pub open spec fn wf(self) -> bool {
        &&& forall|i: int| 0 <= i < self.entries.len() ==> (#[trigger] self.entries[i]).entry_id == i + 1
        &&& forall|j: int|
            0 <= j < self.log.len() ==> {
                &&& (#[trigger] self.log[j]).row_id == j + 1
                &&& 1 <= self.log[j].entry_id <= self.entries.len()
                &&& 1 <= self.log[j].op_id <= self.ops.len()
                &&& self.log[j].processed == self.ops[self.log[j].op_id - 1]
            }
        &&& forall|i: int, j: int|
            0 <= i <= j < self.log.len() ==> (#[trigger] self.log[i]).op_id <= (
            #[trigger] self.log[j]).op_id
        &&& gross(self.entries) <= i128::MAX
    }

    /// The ledger without any row.
    pub open spec fn empty() -> LedgerState {
        LedgerState { entries: Seq::empty(), log: Seq::empty(), ops: Seq::empty() }
    }

    /// The sum of the amounts that are not deleted.
    pub open spec fn balance(self) -> int {
        live_sum(self.entries)
    }

    /// Whether the ledger takes `amount`: it is not zero, and with it every
    /// total still fits.
    pub open spec fn accepts(self, amount: Amount) -> bool {
        amount.units != 0 && gross(self.entries) + abs(amount.units as int) <= i128::MAX
    }

    /// Whether there is room for one more entry.
    pub open spec fn has_entry_room(self) -> bool {
        self.entries.len() < usize::MAX
    }

    /// Whether there is room to log one more operation on every entry.
    pub open spec fn has_log_room(self) -> bool {
        self.log.len() + self.entries.len() < usize::MAX && self.ops.len() < usize::MAX
    }

    /// The ledger with one more entry.
    pub open spec fn added(self, date: Date, amount: Amount) -> LedgerState {
        LedgerState {
            entries: self.entries.push(
                Entry { entry_id: (self.entries.len() + 1) as usize, date, amount, deleted: false },
            ),
            ..self
        }
    }

    /// The ledger after a delete request, which is one logical operation.
    pub open spec fn deleted_where(self, sel: Selection) -> LedgerState {
        LedgerState {
            entries: marked(self.entries, sel),
            log: self.log + new_records(self.entries, sel, self.log.len(), self.ops.len() + 1),
            ops: self.ops.push(false),
        }
    }

    /// The number of logical operations that can still be undone.
    pub open spec fn pending(self) -> nat {
        pending_count(self.ops)
    }

    /// The ledger with its latest operation that was not undone yet taken back.
    pub open spec fn undone_once(self) -> LedgerState {
        let k = last_pending(self.ops);
        if k < 0 {
            self
        } else {
            LedgerState {
                entries: reverted(self.entries, self.log, k + 1),
                log: consumed(self.log, k + 1),
                ops: self.ops.update(k, true),
            }
        }
    }

    /// The ledger with its `depth` latest operations that were not undone yet
    /// taken back, the latest first.
    pub open spec fn undone(self, depth: nat) -> LedgerState
        decreases depth,
    {
        if depth == 0 {
            self
        } else {
            self.undone((depth - 1) as nat).undone_once()
        }
    }
}

} // verus!
