//! Facts about the model that the proofs of the commands share.

use vstd::prelude::*;
use crate::model::{
    abs, consumed, date_sum, gross, hit, last_pending, live_sum, new_records, pending_count,
    restored, reverted, Entry, LedgerState, Selection, UndoRecord,
};

verus! {

/// A prefix that is one longer ends in the next element.
pub proof fn lemma_take_step<T>(s: Seq<T>, i: int)
    requires
        0 <= i < s.len(),
    ensures
        s.take(i + 1).drop_last() == s.take(i),
        s.take(i + 1).last() == s[i],
        s.take(i + 1).len() == i + 1,
{
    assert(s.take(i + 1).drop_last() =~= s.take(i));
}

/// The whole sequence is its own longest prefix.
pub proof fn lemma_take_all<T>(s: Seq<T>)
    ensures
        s.take(s.len() as int) == s,
{
    assert(s.take(s.len() as int) =~= s);
}

/// Neither the balance nor a date's total can exceed the gross sum.
pub proof fn lemma_sums_bounded(entries: Seq<Entry>, date: crate::date::Date)
    ensures
        0 <= gross(entries),
        abs(live_sum(entries)) <= gross(entries),
        abs(date_sum(entries, date)) <= gross(entries),
    decreases entries.len(),
{
    if entries.len() > 0 {
        lemma_sums_bounded(entries.drop_last(), date);
    }
}

/// The gross sum of a prefix is at most that of the whole.
pub proof fn lemma_gross_prefix(entries: Seq<Entry>, i: int)
    requires
        0 <= i <= entries.len(),
    ensures
        0 <= gross(entries.take(i)) <= gross(entries),
    decreases entries.len() - i,
{
    lemma_sums_bounded(entries.take(i), arbitrary());
    if i < entries.len() {
        lemma_gross_prefix(entries, i + 1);
        lemma_take_step(entries, i);
    } else {
        lemma_take_all(entries);
    }
}

/// The gross sum looks at the amounts alone.
pub proof fn lemma_gross_same_amounts(a: Seq<Entry>, b: Seq<Entry>)
    requires
        a.len() == b.len(),
        forall|i: int| 0 <= i < a.len() ==> (#[trigger] a[i]).amount == b[i].amount,
    ensures
        gross(a) == gross(b),
    decreases a.len(),
{
    if a.len() > 0 {
        lemma_gross_same_amounts(a.drop_last(), b.drop_last());
    }
}

/// What the rows that a delete request writes look like.
pub proof fn lemma_new_records(entries: Seq<Entry>, sel: Selection, rows: nat, op: nat)
    requires
        forall|i: int| 0 <= i < entries.len() ==> (#[trigger] entries[i]).entry_id == i + 1,
        rows + entries.len() <= usize::MAX,
        op <= usize::MAX,
    ensures
        new_records(entries, sel, rows, op).len() <= entries.len(),
        forall|j: int|
            0 <= j < new_records(entries, sel, rows, op).len() ==> {
                let rec = #[trigger] new_records(entries, sel, rows, op)[j];
                &&& rec.row_id == rows + j + 1
                &&& rec.op_id == op
                &&& !rec.processed
                &&& !rec.deleted_old
                &&& 1 <= rec.entry_id <= entries.len()
                &&& hit(sel, entries[rec.entry_id - 1])
            },
    decreases entries.len(),
{
    if entries.len() > 0 {
        let shorter = entries.drop_last();
        lemma_new_records(shorter, sel, rows, op);
        let before = new_records(shorter, sel, rows, op);
        assert forall|j: int| 0 <= j < new_records(entries, sel, rows, op).len() implies {
            let rec = #[trigger] new_records(entries, sel, rows, op)[j];
            &&& rec.row_id == rows + j + 1
            &&& rec.op_id == op
            &&& !rec.processed
            &&& !rec.deleted_old
            &&& 1 <= rec.entry_id <= entries.len()
            &&& hit(sel, entries[rec.entry_id - 1])
        } by {
            if j < before.len() {
                let rec = before[j];
                assert(shorter[rec.entry_id - 1] == entries[rec.entry_id - 1]);
            } else {
                assert(entries.last() == entries[entries.len() - 1]);
            }
        }
    }
}

/// Taking undo rows back changes no entry's id, date or amount.
pub proof fn lemma_reverted_shape(entries: Seq<Entry>, log: Seq<UndoRecord>, op: int)
    ensures
        reverted(entries, log, op).len() == entries.len(),
        forall|i: int|
            0 <= i < entries.len() ==> {
                let e = #[trigger] reverted(entries, log, op)[i];
                e.entry_id == entries[i].entry_id && e.date == entries[i].date && e.amount
                    == entries[i].amount
            },
    decreases log.len(),
{
    if log.len() > 0 {
        let next = if log.last().op_id == op {
            restored(entries, log.last())
        } else {
            entries
        };
        lemma_reverted_shape(next, log.drop_last(), op);
        assert forall|i: int| 0 <= i < entries.len() implies {
            let e = #[trigger] reverted(entries, log, op)[i];
            e.entry_id == entries[i].entry_id && e.date == entries[i].date && e.amount
                == entries[i].amount
        } by {
            assert(next[i].entry_id == entries[i].entry_id);
        }
    }
}

/// Where the latest operation that was not undone stands.
pub proof fn lemma_last_pending(ops: Seq<bool>)
    ensures
        -1 <= last_pending(ops) < ops.len(),
        last_pending(ops) >= 0 ==> !ops[last_pending(ops)],
        forall|j: int| last_pending(ops) < j < ops.len() ==> #[trigger] ops[j],
        last_pending(ops) == -1 <==> pending_count(ops) == 0,
    decreases ops.len(),
{
    if ops.len() > 0 {
        lemma_last_pending(ops.drop_last());
        if ops.last() {
            assert forall|j: int| last_pending(ops) < j < ops.len() implies #[trigger] ops[j] by {
                if j < ops.len() - 1 {
                    assert(ops.drop_last()[j]);
                }
            }
        }
    }
}

/// Undoing one operation leaves one fewer to undo.
pub proof fn lemma_pending_update(ops: Seq<bool>, k: int)
    requires
        0 <= k < ops.len(),
        !ops[k],
    ensures
        pending_count(ops.update(k, true)) == pending_count(ops) - 1,
    decreases ops.len(),
{
    if k == ops.len() - 1 {
        assert(ops.update(k, true).drop_last() =~= ops.drop_last());
    } else {
        assert(ops.update(k, true).drop_last() =~= ops.drop_last().update(k, true));
        lemma_pending_update(ops.drop_last(), k);
    }
}

/// Undoing the latest operation keeps the ledger's rows in agreement.
pub proof fn lemma_undone_once(state: LedgerState)
    requires
        state.wf(),
        state.pending() > 0,
    ensures
        state.undone_once().wf(),
        state.undone_once().pending() == state.pending() - 1,
        state.undone_once().entries.len() == state.entries.len(),
        state.undone_once().log.len() == state.log.len(),
        state.undone_once().ops.len() == state.ops.len(),
        gross(state.undone_once().entries) == gross(state.entries),
{
    let k = last_pending(state.ops);
    lemma_last_pending(state.ops);
    lemma_pending_update(state.ops, k);
    lemma_reverted_shape(state.entries, state.log, k + 1);
    let after = state.undone_once();
    lemma_gross_same_amounts(after.entries, state.entries);
    assert forall|i: int| 0 <= i < after.entries.len() implies (#[trigger] after.entries[i]).entry_id
        == i + 1 by {
        assert(after.entries[i].entry_id == state.entries[i].entry_id);
    }
    assert forall|j: int| 0 <= j < after.log.len() implies {
        &&& (#[trigger] after.log[j]).row_id == j + 1
        &&& 1 <= after.log[j].entry_id <= after.entries.len()
        &&& 1 <= after.log[j].op_id <= after.ops.len()
        &&& after.log[j].processed == after.ops[after.log[j].op_id - 1]
    } by {
        assert(after.log[j].op_id == state.log[j].op_id);
    }
    assert forall|a: int, b: int| 0 <= a <= b < after.log.len() implies (
    #[trigger] after.log[a]).op_id <= (#[trigger] after.log[b]).op_id by {
        assert(state.log[a].op_id <= state.log[b].op_id);
    }
}

} // verus!
