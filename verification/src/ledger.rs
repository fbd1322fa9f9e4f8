//! The ledger store: entries with soft deletion, the undo log, and the views
//! derived from them.

use vstd::prelude::*;
use vstd::std_specs::hash::group_hash_axioms;
use std::collections::HashSet;
use crate::amount::Amount;
use crate::date::Date;
use crate::error::LedgerError;
use crate::lemmas::{
    lemma_gross_prefix, lemma_gross_same_amounts, lemma_last_pending, lemma_new_records,
    lemma_sums_bounded, lemma_take_all, lemma_take_step, lemma_undone_once,
};
use crate::model::{
    consumed, date_sum, earlier_than_all, gross, has_live_date, has_row, hit, is_rollup,
    last_pending, live_before, live_sum, marked, new_records, pending_count, recent, restored,
    reverted, DateTotal, Entry, LedgerState, Selection, UndoRecord,
};

verus! {

/// A delete request as the command line gives it: entry ids, or dates. Where
/// both are given the ids count.
pub struct Selector {
    pub entry: Option<Vec<usize>>,
    pub date: Option<Vec<Date>>,
}

impl Selector {
    /// The entries that the request names, if it names any.
    pub open spec fn selection(&self) -> Option<Selection> {
        match (self.entry, self.date) {
            (Some(ids), _) => Some(Selection::Ids(ids@.to_set())),
            (None, Some(dates)) => Some(Selection::Dates(dates@.to_set())),
            (None, None) => None,
        }
    }
}

/// Which listing of the latest rows is asked for.
#[derive(Clone, Copy, Debug, PartialEq, Eq, Structural)]
pub enum TailKind {
    /// The latest entries.
    Entry,
    /// The latest dates, each with the total of its entries.
    Date,
}

/// A listing of the latest rows.
pub enum Tail {
    Entries(Vec<Entry>),
    Dates(Vec<DateTotal>),
}

/// Whether `id` is among `ids`.
fn contains_id(ids: &HashSet<usize>, id: usize) -> (r: bool)
    ensures
        r == ids@.contains(id),
{
    broadcast use group_hash_axioms;

    ids.contains(&id)
}

/// The set of the ids that the list holds.
pub fn id_set(ids: &Vec<usize>) -> (r: HashSet<usize>)
    ensures
        r@ == ids@.to_set(),
{
    broadcast use group_hash_axioms;

    let mut set: HashSet<usize> = HashSet::new();
    let mut i: usize = 0;
    proof {
        assert(set@ =~= ids@.take(0).to_set());
    }
    while i < ids.len()
        invariant
            i <= ids.len(),
            set@ == ids@.take(i as int).to_set(),
        decreases ids.len() - i,
    {
        let ghost seen = ids@.take(i as int);
        let ghost grown = ids@.take(i as int + 1);
        proof {
            assert forall|x: usize| grown.to_set().contains(x) <==> seen.to_set().insert(
                ids@[i as int],
            ).contains(x) by {
                if grown.contains(x) {
                    let k = choose|k: int| 0 <= k < grown.len() && grown[k] == x;
                    if k < i {
                        assert(seen[k] == x);
                    }
                }
                if seen.contains(x) {
                    let k = choose|k: int| 0 <= k < seen.len() && seen[k] == x;
                    assert(grown[k] == x);
                }
                assert(grown[i as int] == ids@[i as int]);
            }
            assert(grown.to_set() =~= seen.to_set().insert(ids@[i as int]));
        }
        set.insert(ids[i]);
        i = i + 1;
    }
    proof {
        assert(ids@.take(i as int) =~= ids@);
    }
    set
}

/// Whether `date` is among `dates`.
fn contains_date(dates: &Vec<Date>, date: Date) -> (r: bool)
    ensures
        r == dates@.contains(date),
{
    let mut i: usize = 0;
    while i < dates.len()
        invariant
            i <= dates.len(),
            forall|k: int| 0 <= k < i ==> dates@[k] != date,
        decreases dates.len() - i,
    {
        if dates[i] == date {
            return true;
        }
        i = i + 1;
    }
    false
}

/// Appends one row to the undo log: that logical operation `op_id` changed
/// the entry `entry_id`, whose `deleted` flag was `deleted_old` before.
fn record(log: &mut Vec<UndoRecord>, entry_id: usize, deleted_old: bool, op_id: usize)
    requires
        old(log)@.len() < usize::MAX,
    ensures
        final(log)@ == old(log)@.push(
            UndoRecord {
                row_id: (old(log)@.len() + 1) as usize,
                entry_id,
                deleted_old,
                processed: false,
                op_id,
            },
        ),
{
    let row_id: usize = log.len() + 1;
    log.push(UndoRecord { row_id, entry_id, deleted_old, processed: false, op_id });
}

/// The entries that one of the two lists names.
pub open spec fn selection_of(ids: Set<usize>, dates: Seq<Date>, by_ids: bool) -> Selection {
    if by_ids {
        Selection::Ids(ids)
    } else {
        Selection::Dates(dates.to_set())
    }
}

/// The ledger. No entry and no undo row is ever removed from it.
pub struct Ledger {
    entries: Vec<Entry>,
    log: Vec<UndoRecord>,
    ops: Vec<bool>,
    gross: i128,
}

impl View for Ledger {
    type V = LedgerState;

    closed spec fn view(&self) -> LedgerState {
        LedgerState { entries: self.entries@, log: self.log@, ops: self.ops@ }
    }
}

impl Ledger {
    /// The ledger's rows agree with one another, and it knows their gross sum.
    pub open spec fn wf(&self) -> bool {
        self@.wf() && self.gross_kept()
    }

    /// The ledger keeps the sum of the absolute amounts of its entries.
    pub closed spec fn gross_kept(&self) -> bool {
        self.gross == gross(self.entries@)
    }

    /// A ledger without any row.
    pub fn new() -> (r: Ledger)
        ensures
            r.wf(),
            r@ == LedgerState::empty(),
    {
        Ledger { entries: Vec::new(), log: Vec::new(), ops: Vec::new(), gross: 0 }
    }

    /// The ledger that holds the given rows, as they were read from a store.
    /// Rows that contradict one another are refused.
    pub fn restore(entries: Vec<Entry>, log: Vec<UndoRecord>, ops: Vec<bool>) -> (r: Result<
        Ledger,
        LedgerError,
    >)
        ensures
            match r {
                Ok(ledger) => ledger.wf() && ledger@ == (LedgerState {
                    entries: entries@,
                    log: log@,
                    ops: ops@,
                }) && ledger@.wf(),
                Err(e) => e == LedgerError::StorageError && !(LedgerState {
                    entries: entries@,
                    log: log@,
                    ops: ops@,
                }).wf(),
            },
    {
        let ghost state = LedgerState { entries: entries@, log: log@, ops: ops@ };
        let mut total: i128 = 0;
        let mut i: usize = 0;
        while i < entries.len()
            invariant
                i <= entries.len(),
                state.entries == entries@,
                forall|k: int| 0 <= k < i ==> (#[trigger] entries@[k]).entry_id == k + 1,
                total == gross(entries@.take(i as int)),
            decreases entries.len() - i,
        {
            let entry = entries[i];
            proof {
                lemma_take_step(entries@, i as int);
                lemma_gross_prefix(entries@, i as int + 1);
                lemma_gross_prefix(entries@, i as int);
            }
            if entry.entry_id != i + 1 || entry.amount.units == i128::MIN {
                return Err(LedgerError::StorageError);
            }
            let size: i128 = if entry.amount.units < 0 {
                -entry.amount.units
            } else {
                entry.amount.units
            };
            if size > i128::MAX - total {
                return Err(LedgerError::StorageError);
            }
            total = total + size;
            i = i + 1;
        }
        proof {
            lemma_take_all(entries@);
        }
        let mut j: usize = 0;
        while j < log.len()
            invariant
                j <= log.len(),
                state.entries == entries@,
                state.log == log@,
                state.ops == ops@,
                forall|t: int|
                    0 <= t < j ==> {
                        &&& (#[trigger] log@[t]).row_id == t + 1
                        &&& 1 <= log@[t].entry_id <= entries@.len()
                        &&& 1 <= log@[t].op_id <= ops@.len()
                        &&& log@[t].processed == ops@[log@[t].op_id - 1]
                    },
                forall|a: int, b: int|
                    0 <= a <= b < j ==> (#[trigger] log@[a]).op_id <= (#[trigger] log@[b]).op_id,
            decreases log.len() - j,
        {
            let record = log[j];
            if record.row_id != j + 1 || record.entry_id < 1 || record.entry_id > entries.len()
                || record.op_id < 1 || record.op_id > ops.len() {
                return Err(LedgerError::StorageError);
            }
            if record.processed != ops[record.op_id - 1] {
                return Err(LedgerError::StorageError);
            }
            if j > 0 {
                if log[j - 1].op_id > record.op_id {
                    proof {
                        assert(state.log[j - 1].op_id > state.log[j as int].op_id);
                    }
                    return Err(LedgerError::StorageError);
                }
                proof {
                    assert forall|a: int, b: int| 0 <= a <= b < j + 1 implies (
                    #[trigger] log@[a]).op_id <= (#[trigger] log@[b]).op_id by {
                        if b == j && a < j {
                            assert(log@[a].op_id <= log@[j - 1].op_id);
                        }
                    }
                }
            }
            j = j + 1;
        }
        Ok(Ledger { entries, log, ops, gross: total })
    }

    /// All entries, deleted ones included, in the order of their ids.
    pub fn entries(&self) -> (r: &Vec<Entry>)
        ensures
            r@ == self@.entries,
    {
        &self.entries
    }

    /// All rows of the undo log, processed ones included, in the order of their ids.
    pub fn undo_log(&self) -> (r: &Vec<UndoRecord>)
        ensures
            r@ == self@.log,
    {
        &self.log
    }

    /// For each logical operation, in the order of their ids, whether it was undone.
    pub fn operations(&self) -> (r: &Vec<bool>)
        ensures
            r@ == self@.ops,
    {
        &self.ops
    }

    /// The entry with the given id, deleted or not.
    pub fn audit(&self, entry_id: usize) -> (r: Option<Entry>)
        requires
            self.wf(),
        ensures
            r == if 1 <= entry_id <= self@.entries.len() {
                Some(self@.entries[entry_id - 1])
            } else {
                None
            },
            r matches Some(e) ==> e.entry_id == entry_id,
    {
        if 1 <= entry_id && entry_id <= self.entries.len() {
            Some(self.entries[entry_id - 1])
        } else {
            None
        }
    }

    /// Adds an entry that is not deleted, and returns its id. Adding is not a
    /// logical operation of the undo log: an undo never takes an entry away.
    pub fn add(&mut self, date: Date, amount: Amount) -> (r: Result<usize, LedgerError>)
        requires
            old(self).wf(),
        ensures
            final(self).wf(),
            !old(self)@.accepts(amount) ==> r == Err::<usize, LedgerError>(
                LedgerError::InvalidAmount,
            ),
            old(self)@.accepts(amount) && !old(self)@.has_entry_room() ==> r == Err::<
                usize,
                LedgerError,
            >(LedgerError::StorageError),
            old(self)@.accepts(amount) && old(self)@.has_entry_room() ==> r == Ok::<
                usize,
                LedgerError,
            >((old(self)@.entries.len() + 1) as usize),
            r is Ok ==> final(self)@ == old(self)@.added(date, amount),
            r is Err ==> final(self)@ == old(self)@,
    {
        proof {
            lemma_sums_bounded(self.entries@, date);
        }
        if amount.units == 0 || amount.units == i128::MIN {
            return Err(LedgerError::InvalidAmount);
        }
        let size: i128 = if amount.units < 0 {
            -amount.units
        } else {
            amount.units
        };
        if size > i128::MAX - self.gross {
            return Err(LedgerError::InvalidAmount);
        }
        if self.entries.len() == usize::MAX {
            return Err(LedgerError::StorageError);
        }
        let entry_id: usize = self.entries.len() + 1;
        let entry = Entry { entry_id, date, amount, deleted: false };
        proof {
            assert(self.entries@.push(entry).drop_last() =~= self.entries@);
        }
        self.entries.push(entry);
        self.gross = self.gross + size;
        proof {
            assert(self@ == old(self)@.added(date, amount));
        }
        Ok(entry_id)
    }

    /// The sum of the amounts of the entries that are not deleted.
    pub fn balance(&self) -> (r: Amount)
        requires
            self.wf(),
        ensures
            r.units == self@.balance(),
    {
        let mut total: i128 = 0;
        let mut i: usize = 0;
        while i < self.entries.len()
            invariant
                self.wf(),
                i <= self.entries.len(),
                total == live_sum(self.entries@.take(i as int)),
            decreases self.entries.len() - i,
        {
            proof {
                lemma_take_step(self.entries@, i as int);
                lemma_gross_prefix(self.entries@, i as int + 1);
                lemma_sums_bounded(self.entries@.take(i as int + 1), self.entries[i as int].date);
            }
            if !self.entries[i].deleted {
                total = total + self.entries[i].amount.units;
            }
            i = i + 1;
        }
        proof {
            lemma_take_all(self.entries@);
        }
        Amount { units: total }
    }

    /// The `limit` latest entries that are not deleted, the latest first.
    pub fn list_recent(&self, limit: usize) -> (r: Vec<Entry>)
        requires
            self.wf(),
        ensures
            r@ == recent(self@.entries, limit as nat),
    {
        let mut out: Vec<Entry> = Vec::new();
        let mut i: usize = self.entries.len();
        proof {
            lemma_take_all(self.entries@);
            assert(out@ + recent(self.entries@, limit as nat) =~= recent(
                self.entries@,
                limit as nat,
            ));
        }
        while i > 0 && out.len() < limit
            invariant
                i <= self.entries.len(),
                out.len() <= limit,
                out@ + recent(self.entries@.take(i as int), (limit - out.len()) as nat) == recent(
                    self.entries@,
                    limit as nat,
                ),
            decreases i,
        {
            let ghost rest = recent(self.entries@.take(i as int), (limit - out.len()) as nat);
            i = i - 1;
            proof {
                lemma_take_step(self.entries@, i as int);
            }
            if !self.entries[i].deleted {
                let ghost tail = recent(
                    self.entries@.take(i as int),
                    (limit - out.len() - 1) as nat,
                );
                proof {
                    assert(rest == seq![self.entries@[i as int]] + tail);
                    assert(out@.push(self.entries@[i as int]) + tail =~= out@ + rest);
                }
                out.push(self.entries[i]);
            }
        }
        proof {
            assert(recent(self.entries@.take(i as int), (limit - out.len()) as nat) =~= Seq::<
                Entry,
            >::empty());
            assert(out@ + Seq::<Entry>::empty() =~= out@);
        }
        out
    }

    /// Marks as deleted the entries that one of the two lists names and that are
    /// not deleted yet, and logs each change under one new logical operation.
    fn delete_selected(&mut self, ids: &HashSet<usize>, dates: &Vec<Date>, by_ids: bool) -> (r: Result<
        (),
        LedgerError,
    >)
        requires
            old(self).wf(),
        ensures
            final(self).wf(),
            old(self)@.has_log_room() ==> r is Ok && final(self)@ == old(self)@.deleted_where(
                selection_of(ids@, dates@, by_ids),
            ),
            !old(self)@.has_log_room() ==> r == Err::<(), LedgerError>(LedgerError::StorageError)
                && final(self)@ == old(self)@,
    {
        let count: usize = self.entries.len();
        if self.ops.len() == usize::MAX || self.log.len() >= usize::MAX - count {
            return Err(LedgerError::StorageError);
        }
        let ghost sel = selection_of(ids@, dates@, by_ids);
        let ghost before = self@;
        let op_id: usize = self.ops.len() + 1;
        let mut i: usize = 0;
        while i < count
            invariant
                i <= count,
                count == before.entries.len(),
                before.wf(),
                before.has_log_room(),
                sel == selection_of(ids@, dates@, by_ids),
                op_id == before.ops.len() + 1,
                self.ops@ == before.ops,
                self.gross == gross(before.entries),
                self.entries@.len() == count,
                forall|k: int| 0 <= k < i ==> self.entries@[k] == marked(before.entries, sel)[k],
                forall|k: int| i <= k < count ==> self.entries@[k] == before.entries[k],
                self.log@ == before.log + new_records(
                    before.entries.take(i as int),
                    sel,
                    before.log.len(),
                    op_id as nat,
                ),
                self.log@.len() <= before.log.len() + i,
            decreases count - i,
        {
            let entry = self.entries[i];
            let named = if by_ids {
                contains_id(ids, entry.entry_id)
            } else {
                contains_date(dates, entry.date)
            };
            proof {
                lemma_take_step(before.entries, i as int);
                assert(hit(sel, entry) == (!entry.deleted && named));
            }
            if !entry.deleted && named {
                let ghost earlier = new_records(
                    before.entries.take(i as int),
                    sel,
                    before.log.len(),
                    op_id as nat,
                );
                let ghost row = UndoRecord {
                    row_id: (self.log@.len() + 1) as usize,
                    entry_id: entry.entry_id,
                    deleted_old: entry.deleted,
                    processed: false,
                    op_id,
                };
                proof {
                    assert((before.log + earlier).push(row) =~= before.log + earlier.push(row));
                }
                record(&mut self.log, entry.entry_id, entry.deleted, op_id);
                self.entries.set(i, Entry { deleted: true, ..entry });
            }
            i = i + 1;
        }
        self.ops.push(false);
        proof {
            lemma_take_all(before.entries);
            let fresh = new_records(before.entries, sel, before.log.len(), op_id as nat);
            lemma_new_records(before.entries, sel, before.log.len(), op_id as nat);
            assert(self.entries@ =~= marked(before.entries, sel));
            lemma_gross_same_amounts(self.entries@, before.entries);
            assert(self@ == before.deleted_where(sel));
            assert forall|j: int| 0 <= j < self.log@.len() implies {
                &&& (#[trigger] self.log@[j]).row_id == j + 1
                &&& 1 <= self.log@[j].entry_id <= self.entries@.len()
                &&& 1 <= self.log@[j].op_id <= self.ops@.len()
                &&& self.log@[j].processed == self.ops@[self.log@[j].op_id - 1]
            } by {
                if j < before.log.len() {
                    assert(self.log@[j] == before.log[j]);
                } else {
                    assert(self.log@[j] == fresh[j - before.log.len()]);
                }
            }
            assert forall|a: int, b: int| 0 <= a <= b < self.log@.len() implies (
            #[trigger] self.log@[a]).op_id <= (#[trigger] self.log@[b]).op_id by {
                if b < before.log.len() {
                    assert(self.log@[a] == before.log[a]);
                    assert(self.log@[b] == before.log[b]);
                } else {
                    assert(self.log@[b] == fresh[b - before.log.len()]);
                    if a < before.log.len() {
                        assert(self.log@[a] == before.log[a]);
                    } else {
                        assert(self.log@[a] == fresh[a - before.log.len()]);
                    }
                }
            }
        }
        Ok(())
    }

    /// Marks as deleted the entries whose id is among `ids` and that are not
    /// deleted yet: one logical operation, with one undo row for each entry
    /// that it changes. An id that names no entry, or a deleted one, changes nothing.
    pub fn soft_delete_by_ids(&mut self, ids: &HashSet<usize>) -> (r: Result<(), LedgerError>)
        requires
            old(self).wf(),
        ensures
            final(self).wf(),
            old(self)@.has_log_room() ==> r is Ok && final(self)@ == old(self)@.deleted_where(
                Selection::Ids(ids@),
            ),
            !old(self)@.has_log_room() ==> r == Err::<(), LedgerError>(LedgerError::StorageError)
                && final(self)@ == old(self)@,
    {
        let none: Vec<Date> = Vec::new();
        self.delete_selected(ids, &none, true)
    }

    /// Marks as deleted the entries whose date is among `dates` and that are
    /// not deleted yet: one logical operation, with one undo row for each entry
    /// that it changes.
    pub fn soft_delete_by_dates(&mut self, dates: &Vec<Date>) -> (r: Result<(), LedgerError>)
        requires
            old(self).wf(),
        ensures
            final(self).wf(),
            old(self)@.has_log_room() ==> r is Ok && final(self)@ == old(self)@.deleted_where(
                Selection::Dates(dates@.to_set()),
            ),
            !old(self)@.has_log_room() ==> r == Err::<(), LedgerError>(LedgerError::StorageError)
                && final(self)@ == old(self)@,
    {
        let none: HashSet<usize> = HashSet::new();
        self.delete_selected(&none, dates, false)
    }

    /// Carries out a delete request: by ids where it names ids, else by dates,
    /// and refuses one that names neither.
    pub fn delete(&mut self, selector: &Selector) -> (r: Result<(), LedgerError>)
        requires
            old(self).wf(),
        ensures
            final(self).wf(),
            match selector.selection() {
                None => r == Err::<(), LedgerError>(LedgerError::NoSelector) && final(self)@ == old(
                    self,
                )@,
                Some(sel) => if old(self)@.has_log_room() {
                    r is Ok && final(self)@ == old(self)@.deleted_where(sel)
                } else {
                    r == Err::<(), LedgerError>(LedgerError::StorageError) && final(self)@ == old(
                        self,
                    )@
                },
            },
    {
        match &selector.entry {
            Some(ids) => {
                let set = id_set(ids);
                self.soft_delete_by_ids(&set)
            },
            None => match &selector.date {
                Some(dates) => self.soft_delete_by_dates(dates),
                None => Err(LedgerError::NoSelector),
            },
        }
    }

    /// The number of logical operations that can still be undone.
    pub fn pending_operations(&self) -> (r: usize)
        ensures
            r == self@.pending(),
    {
        let mut count: usize = 0;
        let mut i: usize = 0;
        while i < self.ops.len()
            invariant
                i <= self.ops.len(),
                count <= i,
                count == pending_count(self.ops@.take(i as int)),
            decreases self.ops.len() - i,
        {
            proof {
                lemma_take_step(self.ops@, i as int);
            }
            if !self.ops[i] {
                count = count + 1;
            }
            i = i + 1;
        }
        proof {
            lemma_take_all(self.ops@);
        }
        count
    }

    /// Takes back the latest logical operation that was not undone yet: each
    /// entry that it changed gets the flag it had before, the latest change
    /// first, and the operation's rows are marked as processed.
    fn undo_latest(&mut self)
        requires
            old(self).wf(),
            old(self)@.pending() > 0,
        ensures
            final(self).wf(),
            final(self)@ == old(self)@.undone_once(),
            final(self)@.pending() == old(self)@.pending() - 1,
    {
        let ghost before = self@;
        let mut k: usize = self.ops.len();
        proof {
            lemma_take_all(self.ops@);
        }
        while k > 0 && self.ops[k - 1]
            invariant
                k <= self.ops.len(),
                self.ops@ == before.ops,
                last_pending(before.ops) == last_pending(before.ops.take(k as int)),
            decreases k,
        {
            k = k - 1;
            proof {
                lemma_take_step(before.ops, k as int);
            }
        }
        proof {
            lemma_last_pending(before.ops);
            if k > 0 {
                lemma_take_step(before.ops, k as int - 1);
            }
            assert(last_pending(before.ops) == k - 1);
            lemma_undone_once(before);
        }
        let op_id: usize = k;
        let mut j: usize = self.log.len();
        proof {
            lemma_take_all(before.log);
        }
        while j > 0
            invariant
                j <= before.log.len(),
                before.wf(),
                1 <= op_id <= before.ops.len(),
                self.ops@ == before.ops,
                self.gross == gross(before.entries),
                self.entries@.len() == before.entries.len(),
                self.log@.len() == before.log.len(),
                reverted(self.entries@, before.log.take(j as int), op_id as int) == reverted(
                    before.entries,
                    before.log,
                    op_id as int,
                ),
                forall|t: int| 0 <= t < j ==> self.log@[t] == before.log[t],
                forall|t: int|
                    j <= t < before.log.len() ==> self.log@[t] == consumed(
                        before.log,
                        op_id as int,
                    )[t],
            decreases j,
        {
            j = j - 1;
            proof {
                lemma_take_step(before.log, j as int);
            }
            let record = self.log[j];
            if record.op_id == op_id {
                let ghost prior = self.entries@;
                let at: usize = record.entry_id - 1;
                let entry = self.entries[at];
                self.entries.set(at, Entry { deleted: record.deleted_old, ..entry });
                self.log.set(j, UndoRecord { processed: true, ..record });
                proof {
                    assert(self.entries@ =~= restored(prior, record));
                }
            }
        }
        self.ops.set(k - 1, true);
        proof {
            assert(self.log@ =~= consumed(before.log, op_id as int));
            assert(self@ == before.undone_once());
        }
    }

    /// Takes back the `depth` latest logical operations that were not undone
    /// yet, the latest first. Where fewer are left, nothing is taken back.
    pub fn undo(&mut self, depth: usize) -> (r: Result<(), LedgerError>)
        requires
            old(self).wf(),
        ensures
            final(self).wf(),
            depth <= old(self)@.pending() ==> r is Ok && final(self)@ == old(self)@.undone(
                depth as nat,
            ),
            depth > old(self)@.pending() ==> r == Err::<(), LedgerError>(
                LedgerError::NothingToUndo,
            ) && final(self)@ == old(self)@,
    {
        let available = self.pending_operations();
        if depth > available {
            return Err(LedgerError::NothingToUndo);
        }
        let ghost before = self@;
        let mut done: usize = 0;
        while done < depth
            invariant
                done <= depth <= before.pending(),
                self.wf(),
                self@ == before.undone(done as nat),
                self@.pending() == before.pending() - done,
            decreases depth - done,
        {
            self.undo_latest();
            done = done + 1;
        }
        Ok(())
    }

    /// The sum of the amounts of the entries of `date` that are not deleted.
    pub fn date_total(&self, date: Date) -> (r: Amount)
        requires
            self.wf(),
        ensures
            r.units == date_sum(self@.entries, date),
    {
        let mut total: i128 = 0;
        let mut i: usize = 0;
        while i < self.entries.len()
            invariant
                self.wf(),
                i <= self.entries.len(),
                total == date_sum(self.entries@.take(i as int), date),
            decreases self.entries.len() - i,
        {
            proof {
                lemma_take_step(self.entries@, i as int);
                lemma_gross_prefix(self.entries@, i as int + 1);
                lemma_sums_bounded(self.entries@.take(i as int + 1), date);
            }
            if !self.entries[i].deleted && self.entries[i].date == date {
                total = total + self.entries[i].amount.units;
            }
            i = i + 1;
        }
        proof {
            lemma_take_all(self.entries@);
        }
        Amount { units: total }
    }

    /// The latest date that an entry has which is not deleted and, where there
    /// is a bound, dated before it.
    fn latest_date_before(&self, bound: Option<Date>) -> (r: Option<Date>)
        ensures
            r is None ==> forall|k: int|
                0 <= k < self@.entries.len() ==> !live_before(#[trigger] self@.entries[k], bound),
            r matches Some(d) ==> {
                &&& exists|k: int|
                    0 <= k < self@.entries.len() && live_before(
                        #[trigger] self@.entries[k],
                        bound,
                    ) && self@.entries[k].date == d
                &&& forall|k: int|
                    0 <= k < self@.entries.len() && live_before(
                        #[trigger] self@.entries[k],
                        bound,
                    ) ==> self@.entries[k].date == d || self@.entries[k].date.before(d)
            },
    {
        let mut best: Option<Date> = None;
        let mut i: usize = 0;
        while i < self.entries.len()
            invariant
                i <= self.entries.len(),
                best is None ==> forall|k: int|
                    0 <= k < i ==> !live_before(#[trigger] self.entries@[k], bound),
                best matches Some(d) ==> {
                    &&& exists|k: int|
                        0 <= k < i && live_before(#[trigger] self.entries@[k], bound)
                            && self.entries@[k].date == d
                    &&& forall|k: int|
                        0 <= k < i && live_before(#[trigger] self.entries@[k], bound)
                            ==> self.entries@[k].date == d || self.entries@[k].date.before(d)
                },
            decreases self.entries.len() - i,
        {
            let entry = self.entries[i];
            let within = match bound {
                Some(b) => entry.date.is_before(&b),
                None => true,
            };
            if !entry.deleted && within {
                let later = match best {
                    Some(d) => d.is_before(&entry.date),
                    None => true,
                };
                if later {
                    best = Some(entry.date);
                }
            }
            i = i + 1;
        }
        proof {
            assert(self@.entries == self.entries@);
            if best is Some {
                let d = best.unwrap();
                let k = choose|k: int|
                    0 <= k < i && live_before(#[trigger] self.entries@[k], bound)
                        && self.entries@[k].date == d;
                assert(live_before(self@.entries[k], bound) && self@.entries[k].date == d);
            }
        }
        best
    }

    /// The totals by date of the entries that are not deleted, for the `limit`
    /// latest dates that have such an entry, the latest date first.
    pub fn rollup_by_date(&self, limit: usize) -> (r: Vec<DateTotal>)
        requires
            self.wf(),
        ensures
            is_rollup(self@.entries, limit as nat, r@),
    {
        let mut out: Vec<DateTotal> = Vec::new();
        let mut bound: Option<Date> = None;
        let mut more = true;
        while more && out.len() < limit
            invariant
                self.wf(),
                out.len() <= limit,
                bound == if out.len() == 0 {
                    None::<Date>
                } else {
                    Some(out@[out.len() - 1].date)
                },
                forall|i: int, j: int|
                    0 <= i < j < out.len() ==> (#[trigger] out@[j]).date.before(
                        (#[trigger] out@[i]).date,
                    ),
                forall|i: int|
                    0 <= i < out.len() ==> has_live_date(self@.entries, (#[trigger] out@[i]).date)
                        && out@[i].total.units == date_sum(self@.entries, out@[i].date),
                forall|d: Date| #[trigger]
                    has_live_date(self@.entries, d) ==> has_row(out@, d) || (more
                        && earlier_than_all(out@, d)),
            decreases (if more { 1int } else { 0int }), limit - out.len(),
        {
            let ghost rows = out@;
            match self.latest_date_before(bound) {
                None => {
                    proof {
                        assert forall|d: Date| #[trigger]
                            has_live_date(self@.entries, d) implies has_row(rows, d) by {
                            if !has_row(rows, d) {
                                let k = choose|k: int|
                                    0 <= k < self@.entries.len() && !self@.entries[k].deleted
                                        && self@.entries[k].date == d;
                                assert(earlier_than_all(rows, d));
                                if rows.len() > 0 {
                                    assert(d.before(rows[rows.len() - 1].date));
                                }
                                assert(live_before(self@.entries[k], bound));
                            }
                        }
                    }
                    more = false;
                },
                Some(date) => {
                    let total = self.date_total(date);
                    let row = DateTotal { date, total };
                    proof {
                        let k = choose|k: int|
                            0 <= k < self@.entries.len() && live_before(
                                #[trigger] self@.entries[k],
                                bound,
                            ) && self@.entries[k].date == date;
                        assert(has_live_date(self@.entries, date));
                        let next = rows.push(row);
                        assert forall|i: int, j: int| 0 <= i < j < next.len() implies (
                        #[trigger] next[j]).date.before((#[trigger] next[i]).date) by {
                            if j == rows.len() {
                                let last = rows[rows.len() - 1];
                                assert(date.before(last.date));
                                if i < rows.len() - 1 {
                                    assert(last.date.before(rows[i].date));
                                }
                            }
                        }
                        assert forall|d: Date| #[trigger]
                            has_live_date(self@.entries, d) implies has_row(next, d)
                            || earlier_than_all(next, d) by {
                            if has_row(rows, d) {
                                let i = choose|i: int| 0 <= i < rows.len() && (#[trigger] rows[i]).date == d;
                                assert(next[i].date == d);
                            } else if d == date {
                                assert(next[rows.len() as int].date == d);
                            } else {
                                let m = choose|m: int|
                                    0 <= m < self@.entries.len() && !self@.entries[m].deleted
                                        && self@.entries[m].date == d;
                                assert(earlier_than_all(rows, d));
                                if rows.len() > 0 {
                                    assert(d.before(rows[rows.len() - 1].date));
                                }
                                assert(live_before(self@.entries[m], bound));
                                assert(d.before(date));
                                assert forall|i: int| 0 <= i < next.len() implies d.before(
                                    (#[trigger] next[i]).date,
                                ) by {
                                    if i < rows.len() {
                                        assert(d.before(rows[i].date));
                                    }
                                }
                            }
                        }
                    }
                    out.push(row);
                    bound = Some(date);
                },
            }
        }
        proof {
            assert forall|d: Date| #[trigger]
                has_live_date(self@.entries, d) implies has_row(out@, d) || (out@.len() == limit
                && earlier_than_all(out@, d)) by {}
        }
        out
    }

    /// The same as `rollup_by_date`: the latest `limit` dates with their totals.
    pub fn list_recent_by_date(&self, limit: usize) -> (r: Vec<DateTotal>)
        requires
            self.wf(),
        ensures
            is_rollup(self@.entries, limit as nat, r@),
    {
        self.rollup_by_date(limit)
    }

    /// The listing of the kind asked for, of at most `limit` rows.
    pub fn tail(&self, kind: TailKind, limit: usize) -> (r: Tail)
        requires
            self.wf(),
        ensures
            match kind {
                TailKind::Entry => r matches Tail::Entries(rows) && rows@ == recent(
                    self@.entries,
                    limit as nat,
                ),
                TailKind::Date => r matches Tail::Dates(rows) && is_rollup(
                    self@.entries,
                    limit as nat,
                    rows@,
                ),
            },
    {
        match kind {
            TailKind::Entry => Tail::Entries(self.list_recent(limit)),
            TailKind::Date => Tail::Dates(self.list_recent_by_date(limit)),
        }
    }
}

} // verus!
