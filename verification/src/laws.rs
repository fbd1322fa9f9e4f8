//! What holds of the ledger's commands taken together.

use vstd::prelude::*;
use crate::amount::Amount;
use crate::date::Date;
use crate::lemmas::{lemma_last_pending, lemma_new_records, lemma_reverted_shape};
use crate::model::{
    has_live_date, has_row, hit, is_rollup, last_pending, live_sum, marked, new_records, recent,
    restored, reverted, DateTotal, Entry, LedgerState, Selection, UndoRecord,
};

verus! {

/// The ledger after adding each of `items` in turn.
pub open spec fn added_all(state: LedgerState, items: Seq<(Date, Amount)>) -> LedgerState
    decreases items.len(),
{
    if items.len() == 0 {
        state
    } else {
        added_all(state, items.drop_last()).added(items.last().0, items.last().1)
    }
}

/// The exact sum of the amounts of `items`.
pub open spec fn sum_of(items: Seq<(Date, Amount)>) -> int
    decreases items.len(),
{
    if items.len() == 0 {
        0
    } else {
        sum_of(items.drop_last()) + items.last().1.units
    }
}

/// Adding an entry raises the balance by exactly its amount.
pub proof fn law_add_raises_balance(state: LedgerState, date: Date, amount: Amount)
    ensures
        state.added(date, amount).balance() == state.balance() + amount.units,
{
    let after = state.added(date, amount);
    assert(after.entries.drop_last() =~= state.entries);
}

/// After any run of additions the balance has grown by the exact sum of the
/// added amounts; from an empty ledger it is that sum.
pub proof fn law_balance_is_sum_of_added(state: LedgerState, items: Seq<(Date, Amount)>)
    ensures
        added_all(state, items).balance() == state.balance() + sum_of(items),
        added_all(LedgerState::empty(), items).balance() == sum_of(items),
    decreases items.len(),
{
    if items.len() > 0 {
        law_balance_is_sum_of_added(state, items.drop_last());
        law_add_raises_balance(
            added_all(state, items.drop_last()),
            items.last().0,
            items.last().1,
        );
        law_balance_is_sum_of_added(LedgerState::empty(), items.drop_last());
        law_add_raises_balance(
            added_all(LedgerState::empty(), items.drop_last()),
            items.last().0,
            items.last().1,
        );
    }
}

/// An entry that is added and at once deleted by its id shows in no balance
/// and in no listing of recent entries, but the ledger still holds its row.
pub proof fn law_delete_after_add(state: LedgerState, date: Date, amount: Amount, limit: nat)
    requires
        state.wf(),
        state.has_entry_room(),
    ensures
        ({
            let id = (state.entries.len() + 1) as usize;
            let after = state.added(date, amount).deleted_where(Selection::Ids(set![id]));
            &&& after.balance() == state.balance()
            &&& recent(after.entries, limit) == recent(state.entries, limit)
            &&& after.entries.len() == id
            &&& after.entries[id - 1] == Entry { entry_id: id, date, amount, deleted: true }
        }),
{
    let id = (state.entries.len() + 1) as usize;
    let sel = Selection::Ids(set![id]);
    let grown = state.added(date, amount);
    let after = grown.deleted_where(sel);
    let gone = Entry { entry_id: id, date, amount, deleted: true };
    assert(after.entries =~= state.entries.push(gone)) by {
        assert forall|i: int| 0 <= i < state.entries.len() implies !hit(sel, grown.entries[i]) by {
            assert(state.entries[i].entry_id == i + 1);
        }
    }
    assert(after.entries.drop_last() =~= state.entries);
}

/// Taking back the rows of an operation that wrote none changes no entry.
proof fn lemma_reverted_other(entries: Seq<Entry>, log: Seq<UndoRecord>, op: int)
    requires
        forall|j: int| 0 <= j < log.len() ==> (#[trigger] log[j]).op_id != op,
    ensures
        reverted(entries, log, op) == entries,
    decreases log.len(),
{
    if log.len() > 0 {
        assert(log.last() == log[log.len() - 1]);
        lemma_reverted_other(entries, log.drop_last(), op);
    }
}

/// Rows are taken back from the end of the log: the later part first.
proof fn lemma_reverted_concat(
    entries: Seq<Entry>,
    first: Seq<UndoRecord>,
    second: Seq<UndoRecord>,
    op: int,
)
    ensures
        reverted(entries, first + second, op) == reverted(
            reverted(entries, second, op),
            first,
            op,
        ),
    decreases second.len(),
{
    if second.len() == 0 {
        assert(first + second =~= first);
    } else {
        let next = if second.last().op_id == op {
            restored(entries, second.last())
        } else {
            entries
        };
        assert((first + second).drop_last() =~= first + second.drop_last());
        assert((first + second).last() == second.last());
        lemma_reverted_concat(next, first, second.drop_last(), op);
    }
}

/// The entries when a delete request has gone through the first `n` of them.
spec fn marked_upto(entries: Seq<Entry>, sel: Selection, n: int) -> Seq<Entry> {
    Seq::new(
        entries.len(),
        |i: int|
            if i < n {
                marked(entries, sel)[i]
            } else {
                entries[i]
            },
    )
}

/// Taking back the rows that a delete request wrote gives the entries as they were.
proof fn lemma_reverted_delete(entries: Seq<Entry>, sel: Selection, rows: nat, op: nat, n: int)
    requires
        forall|i: int| 0 <= i < entries.len() ==> (#[trigger] entries[i]).entry_id == i + 1,
        rows + entries.len() <= usize::MAX,
        op <= usize::MAX,
        0 <= n <= entries.len(),
    ensures
        reverted(
            marked_upto(entries, sel, n),
            new_records(entries.take(n), sel, rows, op),
            op as int,
        ) == entries,
    decreases n,
{
    if n == 0 {
        assert(marked_upto(entries, sel, 0) =~= entries);
    } else {
        let shorter = entries.take(n - 1);
        assert(entries.take(n).drop_last() =~= shorter);
        assert(entries.take(n).last() == entries[n - 1]);
        lemma_reverted_delete(entries, sel, rows, op, n - 1);
        let before = new_records(shorter, sel, rows, op);
        if hit(sel, entries[n - 1]) {
            let rec = new_records(entries.take(n), sel, rows, op).last();
            assert(new_records(entries.take(n), sel, rows, op).drop_last() =~= before);
            assert(rec.entry_id == n);
            assert(restored(marked_upto(entries, sel, n), rec) =~= marked_upto(
                entries,
                sel,
                n - 1,
            ));
        } else {
            assert(marked_upto(entries, sel, n) =~= marked_upto(entries, sel, n - 1));
        }
    }
}

/// One undo right after a delete request gives every entry the flag it had
/// before the request, and with it the balance that the ledger had before.
pub proof fn law_undo_restores_delete(state: LedgerState, sel: Selection)
    requires
        state.wf(),
        state.has_log_room(),
    ensures
        state.deleted_where(sel).pending() == state.pending() + 1,
        state.deleted_where(sel).undone(1).entries == state.entries,
        state.deleted_where(sel).undone(1).balance() == state.balance(),
{
    let after = state.deleted_where(sel);
    let k = state.ops.len() as int;
    let op = (state.ops.len() + 1) as nat;
    let fresh = new_records(state.entries, sel, state.log.len(), op);
    assert(after.ops.drop_last() =~= state.ops);
    assert(last_pending(after.ops) == k);
    assert(after.undone(1) == after.undone(0).undone_once());
    lemma_new_records(state.entries, sel, state.log.len(), op);
    lemma_reverted_concat(after.entries, state.log, fresh, op as int);
    assert(state.entries.take(state.entries.len() as int) =~= state.entries);
    assert(marked_upto(state.entries, sel, state.entries.len() as int) =~= marked(
        state.entries,
        sel,
    ));
    lemma_reverted_delete(state.entries, sel, state.log.len(), op, state.entries.len() as int);
    lemma_reverted_other(state.entries, state.log, op as int);
}

/// No two rows of a rollup are for the same date.
pub proof fn law_rollup_dates_distinct(entries: Seq<Entry>, limit: nat, rows: Seq<DateTotal>)
    requires
        is_rollup(entries, limit, rows),
    ensures
        forall|i: int, j: int|
            0 <= i < rows.len() && 0 <= j < rows.len() && i != j ==> (#[trigger] rows[i]).date != (
            #[trigger] rows[j]).date,
{
    assert forall|i: int, j: int|
        0 <= i < rows.len() && 0 <= j < rows.len() && i != j implies (#[trigger] rows[i]).date != (
    #[trigger] rows[j]).date by {
        if i < j {
            assert(rows[j].date.before(rows[i].date));
        } else {
            assert(rows[i].date.before(rows[j].date));
        }
    }
}

/// Two rollups of the same entries agree on the date of each row that both have.
proof fn lemma_rollup_dates_agree(
    entries: Seq<Entry>,
    limit: nat,
    a: Seq<DateTotal>,
    b: Seq<DateTotal>,
    i: int,
)
    requires
        is_rollup(entries, limit, a),
        is_rollup(entries, limit, b),
        0 <= i < a.len(),
        i < b.len(),
    ensures
        a[i].date == b[i].date,
    decreases i,
{
    assert forall|t: int| 0 <= t < i implies (#[trigger] a[t]).date == b[t].date by {
        lemma_rollup_dates_agree(entries, limit, a, b, t);
    }
    let da = a[i].date;
    let db = b[i].date;
    if da != db {
        lemma_row_not_later(entries, limit, a, b, i);
        lemma_row_not_later(entries, limit, b, a, i);
    }
}

/// Where two rollups agree on the dates of their first `i` rows, the date of
/// row `i` of the one does not come before that of the other.
proof fn lemma_row_not_later(
    entries: Seq<Entry>,
    limit: nat,
    a: Seq<DateTotal>,
    b: Seq<DateTotal>,
    i: int,
)
    requires
        is_rollup(entries, limit, a),
        is_rollup(entries, limit, b),
        0 <= i < a.len(),
        i < b.len(),
        forall|t: int| 0 <= t < i ==> (#[trigger] a[t]).date == b[t].date,
    ensures
        !a[i].date.before(b[i].date),
{
    let da = a[i].date;
    let db = b[i].date;
    if da.before(db) {
        // `db` has a live entry, so `a` must account for it.
        assert(has_live_date(entries, db));
        if has_row(a, db) {
            let m = choose|m: int| 0 <= m < a.len() && (#[trigger] a[m]).date == db;
            if m < i {
                assert(a[m].date == b[m].date);
                assert(b[i].date.before(b[m].date));
            } else if m > i {
                assert(a[m].date.before(a[i].date));
            }
        } else {
            assert(db.before(a[i].date));
        }
    }
}

/// The entries and the limit decide the rollup: there is only one.
pub proof fn law_rollup_unique(
    entries: Seq<Entry>,
    limit: nat,
    a: Seq<DateTotal>,
    b: Seq<DateTotal>,
)
    requires
        is_rollup(entries, limit, a),
        is_rollup(entries, limit, b),
    ensures
        a == b,
{
    lemma_rollup_not_shorter(entries, limit, a, b);
    lemma_rollup_not_shorter(entries, limit, b, a);
    assert forall|i: int| 0 <= i < a.len() implies a[i] == b[i] by {
        lemma_rollup_dates_agree(entries, limit, a, b, i);
    }
    assert(a =~= b);
}

/// Of two rollups of the same entries the one is not shorter than the other.
proof fn lemma_rollup_not_shorter(
    entries: Seq<Entry>,
    limit: nat,
    a: Seq<DateTotal>,
    b: Seq<DateTotal>,
)
    requires
        is_rollup(entries, limit, a),
        is_rollup(entries, limit, b),
    ensures
        a.len() >= b.len(),
{
    if a.len() < b.len() {
        let d = b[a.len() as int].date;
        assert(has_live_date(entries, d));
        assert(has_row(a, d));
        let m = choose|m: int| 0 <= m < a.len() && (#[trigger] a[m]).date == d;
        lemma_rollup_dates_agree(entries, limit, a, b, m);
        assert(b[a.len() as int].date.before(b[m].date));
    }
}

/// Whether `after` still holds every entry of `before` at its place, with its
/// id, date and amount: at most the `deleted` flags differ.
pub open spec fn keeps_entries(before: Seq<Entry>, after: Seq<Entry>) -> bool {
    &&& before.len() <= after.len()
    &&& forall|i: int|
        0 <= i < before.len() ==> (#[trigger] after[i]).entry_id == before[i].entry_id
            && after[i].date == before[i].date && after[i].amount == before[i].amount
}

/// Whether `after` still holds every undo row of `before` at its place: at
/// most the `processed` flags differ.
pub open spec fn keeps_log(before: Seq<UndoRecord>, after: Seq<UndoRecord>) -> bool {
    &&& before.len() <= after.len()
    &&& forall|j: int|
        0 <= j < before.len() ==> #[trigger] after[j] == (UndoRecord {
            processed: after[j].processed,
            ..before[j]
        })
}

/// Adding an entry removes no row and gives no id a second time.
pub proof fn law_add_keeps_rows(state: LedgerState, date: Date, amount: Amount)
    ensures
        keeps_entries(state.entries, state.added(date, amount).entries),
        state.added(date, amount).entries.take(state.entries.len() as int) == state.entries,
        state.added(date, amount).log == state.log,
        state.added(date, amount).ops == state.ops,
{
    assert(state.added(date, amount).entries.take(state.entries.len() as int) =~= state.entries);
}

/// A delete request removes no row: the entries keep their ids, dates and
/// amounts, and the undo log only grows at its end.
pub proof fn law_delete_keeps_rows(state: LedgerState, sel: Selection)
    ensures
        keeps_entries(state.entries, state.deleted_where(sel).entries),
        state.deleted_where(sel).entries.len() == state.entries.len(),
        state.deleted_where(sel).log.take(state.log.len() as int) == state.log,
        state.deleted_where(sel).ops.take(state.ops.len() as int) == state.ops,
{
    let after = state.deleted_where(sel);
    assert(after.log.take(state.log.len() as int) =~= state.log);
    assert(after.ops.take(state.ops.len() as int) =~= state.ops);
}

/// An undo removes no row: the entries keep their ids, dates and amounts, and
/// the undo log keeps every row, processed ones included.
pub proof fn law_undo_keeps_rows(state: LedgerState, depth: nat)
    ensures
        keeps_entries(state.entries, state.undone(depth).entries),
        state.undone(depth).entries.len() == state.entries.len(),
        keeps_log(state.log, state.undone(depth).log),
        state.undone(depth).log.len() == state.log.len(),
        state.undone(depth).ops.len() == state.ops.len(),
    decreases depth,
{
    if depth > 0 {
        let earlier = state.undone((depth - 1) as nat);
        law_undo_keeps_rows(state, (depth - 1) as nat);
        let k = last_pending(earlier.ops);
        lemma_last_pending(earlier.ops);
        if k >= 0 {
            lemma_reverted_shape(earlier.entries, earlier.log, k + 1);
            let after = earlier.undone_once();
            assert forall|i: int| 0 <= i < state.entries.len() implies (
            #[trigger] after.entries[i]).entry_id == state.entries[i].entry_id
                && after.entries[i].date == state.entries[i].date && after.entries[i].amount
                == state.entries[i].amount by {
                assert(earlier.entries[i].entry_id == state.entries[i].entry_id);
            }
            assert forall|j: int| 0 <= j < state.log.len() implies #[trigger] after.log[j] == (
            UndoRecord { processed: after.log[j].processed, ..state.log[j] }) by {
                assert(earlier.log[j] == UndoRecord {
                    processed: earlier.log[j].processed,
                    ..state.log[j]
                });
            }
        }
    }
}

} // verus!
