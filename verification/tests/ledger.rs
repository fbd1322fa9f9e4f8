use std::collections::HashSet;

use kouhia::amount::{parse_non_zero, Amount};
use kouhia::date::Date;
use kouhia::error::LedgerError;
use kouhia::ledger::{id_set, Ledger, Selector, Tail, TailKind};
use kouhia::model::{DateTotal, Entry, UndoRecord};

fn day(year: i32, month: u32, day: u32) -> Date {
    Date::new(year, month, day).unwrap()
}

fn hours(text: &str) -> Amount {
    parse_non_zero(text).unwrap()
}

const TENTH: i128 = 1_000_000_000_000_000_000_000_000_000;

fn three_entries() -> Ledger {
    let mut ledger = Ledger::new();
    assert_eq!(ledger.add(day(2024, 1, 1), hours("3.5")), Ok(1));
    assert_eq!(ledger.add(day(2024, 1, 1), hours("1.0")), Ok(2));
    assert_eq!(ledger.add(day(2024, 1, 2), hours("-2.0")), Ok(3));
    ledger
}

#[test]
fn empty_ledger_has_zero_balance() {
    let ledger = Ledger::new();
    assert_eq!(ledger.balance(), Amount::zero());
    assert_eq!(ledger.balance().units, 0);
    assert!(ledger.list_recent(10).is_empty());
    assert!(ledger.rollup_by_date(10).is_empty());
    assert_eq!(ledger.pending_operations(), 0);
}

#[test]
fn balance_is_exact_sum_of_added_amounts() {
    let mut ledger = Ledger::new();
    let mut expected: i128 = 0;
    for _ in 0..10 {
        ledger.add(day(2024, 3, 5), hours("0.1")).unwrap();
        expected += TENTH;
    }
    assert_eq!(ledger.balance().units, expected);
    assert_eq!(ledger.balance(), hours("1"));
    ledger.add(day(2024, 3, 6), hours("-0.3")).unwrap();
    assert_eq!(ledger.balance(), hours("0.7"));
}

#[test]
fn scenario_balance_and_rollup() {
    let ledger = three_entries();
    assert_eq!(ledger.balance(), hours("2.5"));
    assert_eq!(
        ledger.rollup_by_date(1),
        vec![DateTotal { date: day(2024, 1, 2), total: hours("-2.0") }]
    );
    assert_eq!(
        ledger.rollup_by_date(2),
        vec![
            DateTotal { date: day(2024, 1, 2), total: hours("-2.0") },
            DateTotal { date: day(2024, 1, 1), total: hours("4.5") },
        ]
    );
    assert_eq!(ledger.list_recent_by_date(5), ledger.rollup_by_date(2));
}

#[test]
fn scenario_delete_by_date_and_undo() {
    let mut ledger = three_entries();
    assert_eq!(ledger.soft_delete_by_dates(&vec![day(2024, 1, 1)]), Ok(()));
    assert_eq!(ledger.balance(), hours("-2.0"));
    assert_eq!(ledger.undo_log().len(), 2);
    assert_eq!(ledger.pending_operations(), 1);
    assert_eq!(ledger.undo(1), Ok(()));
    assert_eq!(ledger.balance(), hours("2.5"));
    assert_eq!(ledger.pending_operations(), 0);
}

#[test]
fn add_then_delete_hides_entry_but_keeps_row() {
    let mut ledger = three_entries();
    let before = ledger.balance();
    let listed = ledger.list_recent(10);
    let id = ledger.add(day(2024, 2, 1), hours("8")).unwrap();
    assert_eq!(id, 4);
    assert_eq!(ledger.soft_delete_by_ids(&HashSet::from([id])), Ok(()));
    assert_eq!(ledger.balance(), before);
    assert_eq!(ledger.list_recent(10), listed);
    assert_eq!(
        ledger.audit(id),
        Some(Entry { entry_id: 4, date: day(2024, 2, 1), amount: hours("8"), deleted: true })
    );
    assert_eq!(ledger.entries().len(), 4);
}

#[test]
fn undo_after_delete_by_ids_restores_balance() {
    let mut ledger = three_entries();
    let before = ledger.balance();
    ledger.soft_delete_by_ids(&HashSet::from([1, 3, 99])).unwrap();
    assert_eq!(ledger.balance(), hours("1.0"));
    assert_eq!(ledger.undo(1), Ok(()));
    assert_eq!(ledger.balance(), before);
    assert!(ledger.entries().iter().all(|e| !e.deleted));
    assert!(ledger.undo_log().iter().all(|r| r.processed));
}

#[test]
fn undo_beyond_available_changes_nothing() {
    let mut ledger = three_entries();
    ledger.soft_delete_by_ids(&HashSet::from([2])).unwrap();
    let entries = ledger.entries().clone();
    let log = ledger.undo_log().clone();
    let ops = ledger.operations().clone();
    assert_eq!(ledger.undo(2), Err(LedgerError::NothingToUndo));
    assert_eq!(ledger.entries(), &entries);
    assert_eq!(ledger.undo_log(), &log);
    assert_eq!(ledger.operations(), &ops);
    assert_eq!(ledger.undo(0), Ok(()));
    assert_eq!(ledger.entries(), &entries);
}

#[test]
fn undo_on_fresh_ledger_reports_nothing_to_undo() {
    let mut ledger = Ledger::new();
    assert_eq!(ledger.undo(1), Err(LedgerError::NothingToUndo));
    ledger.add(day(2024, 1, 1), hours("1")).unwrap();
    assert_eq!(ledger.undo(1), Err(LedgerError::NothingToUndo));
    assert_eq!(ledger.balance(), hours("1"));
}

#[test]
fn undo_reverses_operations_latest_first() {
    let mut ledger = three_entries();
    ledger.soft_delete_by_ids(&HashSet::from([1])).unwrap();
    ledger.soft_delete_by_dates(&vec![day(2024, 1, 2)]).unwrap();
    ledger.soft_delete_by_ids(&HashSet::from([2])).unwrap();
    assert_eq!(ledger.balance().units, 0);
    assert_eq!(ledger.undo(1), Ok(()));
    assert_eq!(ledger.balance(), hours("1.0"));
    ledger.soft_delete_by_ids(&HashSet::from([2])).unwrap();
    assert_eq!(ledger.undo(2), Ok(()));
    assert_eq!(ledger.balance(), hours("-1.0"));
    assert_eq!(ledger.operations(), &vec![false, true, true, true]);
    assert_eq!(ledger.undo(1), Ok(()));
    assert_eq!(ledger.balance(), hours("2.5"));
    assert_eq!(ledger.undo(1), Err(LedgerError::NothingToUndo));
}

#[test]
fn delete_that_matches_nothing_is_an_operation_without_rows() {
    let mut ledger = three_entries();
    ledger.soft_delete_by_ids(&HashSet::from([2])).unwrap();
    assert_eq!(ledger.soft_delete_by_ids(&HashSet::from([2, 42])), Ok(()));
    assert_eq!(ledger.undo_log().len(), 1);
    assert_eq!(ledger.pending_operations(), 2);
    assert_eq!(ledger.undo(1), Ok(()));
    assert_eq!(ledger.balance(), hours("1.5"));
    assert_eq!(ledger.undo(1), Ok(()));
    assert_eq!(ledger.balance(), hours("2.5"));
}

#[test]
fn delete_writes_one_undo_row_per_changed_entry() {
    let mut ledger = three_entries();
    ledger.soft_delete_by_dates(&vec![day(2024, 1, 1), day(2030, 1, 1)]).unwrap();
    assert_eq!(
        ledger.undo_log(),
        &vec![
            UndoRecord { row_id: 1, entry_id: 1, deleted_old: false, processed: false, op_id: 1 },
            UndoRecord { row_id: 2, entry_id: 2, deleted_old: false, processed: false, op_id: 1 },
        ]
    );
    ledger.soft_delete_by_ids(&HashSet::from([3, 1])).unwrap();
    assert_eq!(
        ledger.undo_log()[2],
        UndoRecord { row_id: 3, entry_id: 3, deleted_old: false, processed: false, op_id: 2 }
    );
    assert_eq!(ledger.undo_log().len(), 3);
}

#[test]
fn delete_needs_a_selector() {
    let mut ledger = three_entries();
    let nothing = Selector { entry: None, date: None };
    assert_eq!(ledger.delete(&nothing), Err(LedgerError::NoSelector));
    assert_eq!(ledger.balance(), hours("2.5"));
    assert_eq!(ledger.pending_operations(), 0);
    let by_id = Selector { entry: Some(vec![3]), date: None };
    assert_eq!(ledger.delete(&by_id), Ok(()));
    assert_eq!(ledger.balance(), hours("4.5"));
    let by_date = Selector { entry: None, date: Some(vec![day(2024, 1, 1)]) };
    assert_eq!(ledger.delete(&by_date), Ok(()));
    assert_eq!(ledger.balance().units, 0);
    let both = Selector { entry: Some(vec![7]), date: Some(vec![day(2024, 1, 2)]) };
    assert_eq!(ledger.delete(&both), Ok(()));
    assert_eq!(ledger.undo_log().len(), 3);
}

#[test]
fn list_recent_is_latest_first_and_limited() {
    let mut ledger = three_entries();
    let ids: Vec<usize> = ledger.list_recent(2).iter().map(|e| e.entry_id).collect();
    assert_eq!(ids, vec![3, 2]);
    ledger.soft_delete_by_ids(&HashSet::from([3])).unwrap();
    let ids: Vec<usize> = ledger.list_recent(2).iter().map(|e| e.entry_id).collect();
    assert_eq!(ids, vec![2, 1]);
    assert!(ledger.list_recent(0).is_empty());
    assert_eq!(ledger.list_recent(100).len(), 2);
}

#[test]
fn rollup_is_strictly_descending_without_duplicates() {
    let mut ledger = Ledger::new();
    let dates = [
        day(2024, 5, 1),
        day(2023, 12, 31),
        day(2024, 5, 1),
        day(2024, 4, 30),
        day(2023, 12, 31),
        day(2025, 1, 1),
        day(2024, 5, 1),
    ];
    for date in dates {
        ledger.add(date, hours("1.25")).unwrap();
    }
    ledger.soft_delete_by_ids(&HashSet::from([6])).unwrap();
    let rows = ledger.rollup_by_date(10);
    assert_eq!(
        rows,
        vec![
            DateTotal { date: day(2024, 5, 1), total: hours("3.75") },
            DateTotal { date: day(2024, 4, 30), total: hours("1.25") },
            DateTotal { date: day(2023, 12, 31), total: hours("2.5") },
        ]
    );
    for pair in rows.windows(2) {
        assert!(pair[1].date.is_before(&pair[0].date));
    }
    assert_eq!(ledger.rollup_by_date(2), rows[..2].to_vec());
    assert!(ledger.rollup_by_date(0).is_empty());
    assert_eq!(ledger.date_total(day(2024, 5, 1)), hours("3.75"));
    assert_eq!(ledger.date_total(day(2025, 1, 1)).units, 0);
}

#[test]
fn tail_gives_the_listing_asked_for() {
    let ledger = three_entries();
    match ledger.tail(TailKind::Entry, 1) {
        Tail::Entries(rows) => assert_eq!(rows, ledger.list_recent(1)),
        Tail::Dates(_) => panic!("entries were asked for"),
    }
    match ledger.tail(TailKind::Date, 2) {
        Tail::Dates(rows) => assert_eq!(rows, ledger.rollup_by_date(2)),
        Tail::Entries(_) => panic!("dates were asked for"),
    }
}

#[test]
fn add_refuses_zero_and_amounts_that_do_not_fit() {
    let mut ledger = Ledger::new();
    assert_eq!(ledger.add(day(2024, 1, 1), Amount::zero()), Err(LedgerError::InvalidAmount));
    assert_eq!(
        ledger.add(day(2024, 1, 1), Amount::from_units(i128::MIN)),
        Err(LedgerError::InvalidAmount)
    );
    assert_eq!(ledger.add(day(2024, 1, 1), Amount::from_units(i128::MAX)), Ok(1));
    assert_eq!(ledger.add(day(2024, 1, 1), Amount::from_units(-1)), Err(LedgerError::InvalidAmount));
    assert_eq!(ledger.entries().len(), 1);
    assert_eq!(ledger.balance().units, i128::MAX);
}

#[test]
fn restore_takes_consistent_rows_and_refuses_others() {
    let mut ledger = three_entries();
    ledger.soft_delete_by_ids(&HashSet::from([1])).unwrap();
    ledger.soft_delete_by_ids(&HashSet::from([2])).unwrap();
    ledger.undo(1).unwrap();
    let entries = ledger.entries().clone();
    let log = ledger.undo_log().clone();
    let ops = ledger.operations().clone();
    let mut again = Ledger::restore(entries.clone(), log.clone(), ops.clone()).unwrap();
    assert_eq!(again.balance(), ledger.balance());
    assert_eq!(again.undo(1), Ok(()));
    assert_eq!(again.balance(), hours("2.5"));

    let mut gap = entries.clone();
    gap[1].entry_id = 5;
    assert!(matches!(Ledger::restore(gap, log.clone(), ops.clone()), Err(LedgerError::StorageError)));
    let mut flag = log.clone();
    flag[0].processed = true;
    assert!(matches!(Ledger::restore(entries.clone(), flag, ops.clone()), Err(LedgerError::StorageError)));
    let mut stray = log.clone();
    stray[1].entry_id = 9;
    assert!(matches!(Ledger::restore(entries.clone(), stray, ops.clone()), Err(LedgerError::StorageError)));
    let mut order = log.clone();
    order[0].op_id = 2;
    order[0].processed = true;
    order[1].op_id = 1;
    order[1].processed = false;
    assert!(matches!(Ledger::restore(entries.clone(), order, ops.clone()), Err(LedgerError::StorageError)));
    let mut heavy = entries.clone();
    heavy[0].amount = Amount::from_units(i128::MAX);
    assert!(matches!(Ledger::restore(heavy, log, ops), Err(LedgerError::StorageError)));
}

#[test]
fn error_messages() {
    assert_eq!(LedgerError::InvalidAmount.message(), "Time must be non-zero");
    assert_eq!(LedgerError::NoSelector.message(), "no selector");
    assert_eq!(
        LedgerError::SchemaMismatch.message(),
        "Database is not up to date with the latest schema"
    );
    assert_eq!(LedgerError::NothingToUndo.message(), "Nothing to undo");
    assert_eq!(LedgerError::MigrationError.message(), "Migration failed");
    assert_eq!(LedgerError::StorageError.message(), "Storage failure");
}

#[test]
fn id_set_holds_each_id_once() {
    assert_eq!(id_set(&vec![3, 1, 3, 2, 1]), HashSet::from([1, 2, 3]));
    assert!(id_set(&vec![]).is_empty());
}
