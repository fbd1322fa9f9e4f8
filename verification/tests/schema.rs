use kouhia::error::LedgerError;
use kouhia::schema::{
    check_schema, latest_known_version, migration_id, migration_steps, next_migration,
    pending_migrations, schema_info, step_done, validate_migrations, MigrationAction,
    MigrationStep, SchemaVersion,
};
use kouhia::text::pad_left;

#[test]
fn migrations_test() {
    let steps = migration_steps();
    assert_eq!(validate_migrations(&steps), Ok(2));
    let migrations = rusqlite_migration::Migrations::new(
        steps.iter().map(|step| rusqlite_migration::M::up(&step.up)).collect(),
    );
    assert!(migrations.validate().is_ok());
}

#[test]
fn migration_id_reads_the_leading_number() {
    assert_eq!(migration_id("01-hours"), Some(1));
    assert_eq!(migration_id("12-add-undo-log"), Some(12));
    assert_eq!(migration_id("7"), Some(7));
    assert_eq!(migration_id("+3-plus"), Some(3));
    assert_eq!(migration_id("0-zero"), Some(0));
    assert_eq!(migration_id(""), None);
    assert_eq!(migration_id("-1"), None);
    assert_eq!(migration_id("+-1"), None);
    assert_eq!(migration_id("1a-x"), None);
    assert_eq!(migration_id("initial-1"), None);
    assert_eq!(migration_id(" 1-x"), None);
    assert_eq!(migration_id("18446744073709551615-max"), "18446744073709551615".parse::<usize>().ok());
    assert_eq!(migration_id("99999999999999999999999999-big"), None);
    assert_eq!(migration_id("000000000000000000000000000000000005-zeros"), Some(5));
}

#[test]
fn latest_known_version_is_the_highest_id() {
    let names = vec!["02-undolog".to_string(), "10-later".to_string(), "01-hours".to_string()];
    assert_eq!(latest_known_version(&names), Ok(10));
    assert_eq!(latest_known_version(&Vec::new()), Ok(0));
    let bad = vec!["01-hours".to_string(), "readme".to_string()];
    assert_eq!(latest_known_version(&bad), Err(LedgerError::MigrationError));
}

#[test]
fn validate_migrations_wants_consecutive_ids() {
    let step = |name: &str| MigrationStep { name: name.to_string(), up: String::new() };
    assert_eq!(validate_migrations(&vec![step("1-a"), step("2-b"), step("3-c")]), Ok(3));
    assert_eq!(validate_migrations(&vec![]), Ok(0));
    assert_eq!(validate_migrations(&vec![step("1-a"), step("3-c")]), Err(LedgerError::MigrationError));
    assert_eq!(validate_migrations(&vec![step("2-b"), step("1-a")]), Err(LedgerError::MigrationError));
    assert_eq!(validate_migrations(&vec![step("a")]), Err(LedgerError::MigrationError));
}

#[test]
fn schema_gate_wants_exactly_the_latest_version() {
    assert_eq!(check_schema(SchemaVersion::Inside(2), 2), Ok(()));
    assert_eq!(check_schema(SchemaVersion::Inside(1), 2), Err(LedgerError::SchemaMismatch));
    assert_eq!(check_schema(SchemaVersion::NoneSet, 2), Err(LedgerError::SchemaMismatch));
    assert_eq!(check_schema(SchemaVersion::Outside(3), 2), Err(LedgerError::SchemaMismatch));
    assert_eq!(check_schema(SchemaVersion::Outside(2), 2), Err(LedgerError::SchemaMismatch));
}

#[test]
fn classify_and_number() {
    assert_eq!(SchemaVersion::classify(0, 2), SchemaVersion::NoneSet);
    assert_eq!(SchemaVersion::classify(1, 2), SchemaVersion::Inside(1));
    assert_eq!(SchemaVersion::classify(2, 2), SchemaVersion::Inside(2));
    assert_eq!(SchemaVersion::classify(3, 2), SchemaVersion::Outside(3));
    assert_eq!(SchemaVersion::NoneSet.number(), 0);
    assert_eq!(SchemaVersion::Inside(4).number(), 4);
    assert_eq!(SchemaVersion::Outside(9).number(), 9);
}

#[test]
fn pending_migrations_ascend_to_latest() {
    assert_eq!(pending_migrations(SchemaVersion::NoneSet, 3), Ok(vec![1, 2, 3]));
    assert_eq!(pending_migrations(SchemaVersion::Inside(1), 3), Ok(vec![2, 3]));
    assert_eq!(pending_migrations(SchemaVersion::Outside(4), 3), Err(LedgerError::MigrationError));
    assert_eq!(pending_migrations(SchemaVersion::NoneSet, 0), Err(LedgerError::MigrationError));
}

#[test]
fn migrating_twice_applies_nothing_the_second_time() {
    let latest = validate_migrations(&migration_steps()).unwrap();
    let first = pending_migrations(SchemaVersion::NoneSet, latest).unwrap();
    assert_eq!(first, vec![1, 2]);
    let after = SchemaVersion::classify(*first.last().unwrap(), latest);
    assert_eq!(after, SchemaVersion::Inside(2));
    assert_eq!(pending_migrations(after, latest), Ok(vec![]));
    assert_eq!(check_schema(after, latest), Ok(()));
}

#[test]
fn schema_info_aligns_both_versions() {
    let report = schema_info(SchemaVersion::NoneSet, 2);
    assert_eq!(report.current, "Database schema version:  Not set");
    assert_eq!(report.latest, "Latest available version:       2");
    let report = schema_info(SchemaVersion::Inside(3), 12);
    assert_eq!(report.current, "Database schema version:   3");
    assert_eq!(report.latest, "Latest available version: 12");
    let report = schema_info(SchemaVersion::Outside(1234), 0);
    assert_eq!(report.current, "Database schema version:  1234");
    assert_eq!(report.latest, "Latest available version:    0");
}

#[test]
fn pad_left_fills_with_spaces() {
    assert_eq!(pad_left("ab", 5), "   ab");
    assert_eq!(pad_left("ab", 2), "ab");
    assert_eq!(pad_left("abc", 1), "abc");
    assert_eq!(pad_left("", 0), "");
    assert_eq!(pad_left("é", 3), "  é");
}

#[test]
fn migration_goes_step_by_step_and_stops_at_a_failure() {
    assert_eq!(next_migration(SchemaVersion::NoneSet, 2), Ok(MigrationAction::Apply(1)));
    assert_eq!(step_done(SchemaVersion::NoneSet, 1, true, 2), (SchemaVersion::Inside(1), Ok(())));
    assert_eq!(next_migration(SchemaVersion::Inside(1), 2), Ok(MigrationAction::Apply(2)));
    assert_eq!(
        step_done(SchemaVersion::Inside(1), 2, false, 2),
        (SchemaVersion::Inside(1), Err(LedgerError::MigrationError))
    );
    assert_eq!(step_done(SchemaVersion::Inside(1), 2, true, 2), (SchemaVersion::Inside(2), Ok(())));
    assert_eq!(next_migration(SchemaVersion::Inside(2), 2), Ok(MigrationAction::Finished));
    assert_eq!(next_migration(SchemaVersion::Outside(3), 2), Err(LedgerError::MigrationError));
    assert_eq!(next_migration(SchemaVersion::NoneSet, 0), Err(LedgerError::MigrationError));
}
