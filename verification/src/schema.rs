//! Schema versions: which version a store is at, which migration steps are
//! known, and which of them are still to be applied.

use vstd::prelude::*;
use vstd::string::{StrSliceExecFns, StringExecFns};
use crate::error::LedgerError;
use crate::text::{decimal_digits, decimal_text, pad_left, right_aligned};

verus! {

/// The schema version that a store is at, seen against the known migrations.
#[derive(Clone, Copy, Debug, PartialEq, Eq, Structural)]
pub enum SchemaVersion {
    /// The store carries no version yet.
    NoneSet,
    /// The store is at the version that a known migration step leads to.
    Inside(usize),
    /// The store is at a version beyond every known migration step.
    Outside(usize),
}

impl SchemaVersion {
    /// The version number as the store keeps it: 0 where none is set.
    pub open spec fn number_of(self) -> usize {
        match self {
            SchemaVersion::NoneSet => 0,
            SchemaVersion::Inside(v) => v,
            SchemaVersion::Outside(v) => v,
        }
    }

    /// The version that a stored number stands for, where the known migration
    /// steps are numbered from 1 to `latest`.
    pub open spec fn of_number(number: usize, latest: usize) -> SchemaVersion {
        if number == 0 {
            SchemaVersion::NoneSet
        } else if number <= latest {
            SchemaVersion::Inside(number)
        } else {
            SchemaVersion::Outside(number)
        }
    }

    /// The version number as the store keeps it: 0 where none is set.
    pub fn number(&self) -> (r: usize)
        ensures
            r == self.number_of(),
    {
        match self {
            SchemaVersion::NoneSet => 0,
            SchemaVersion::Inside(v) => *v,
            SchemaVersion::Outside(v) => *v,
        }
    }

    /// The version that a stored number stands for, where the known migration
    /// steps are numbered from 1 to `latest`.
    pub fn classify(number: usize, latest: usize) -> (r: SchemaVersion)
        ensures
            r == SchemaVersion::of_number(number, latest),
    {
        if number == 0 {
            SchemaVersion::NoneSet
        } else if number <= latest {
            SchemaVersion::Inside(number)
        } else {
            SchemaVersion::Outside(number)
        }
    }
}

/// Lets a ledger command through only where the store is exactly at the
/// latest known version.
pub fn check_schema(current: SchemaVersion, latest: usize) -> (r: Result<(), LedgerError>)
    ensures
        r == if current == SchemaVersion::Inside(latest) {
            Ok::<(), LedgerError>(())
        } else {
            Err::<(), LedgerError>(LedgerError::SchemaMismatch)
        },
{
    match current {
        SchemaVersion::Inside(v) => {
            if v == latest {
                Ok(())
            } else {
                Err(LedgerError::SchemaMismatch)
            }
        },
        _ => Err(LedgerError::SchemaMismatch),
    }
}

/// The migration steps that lead from `current` to the latest version, in
/// the order in which they are applied; none where the store is there already.
pub open spec fn pending_steps(current: SchemaVersion, latest: usize) -> Result<
    Seq<usize>,
    LedgerError,
> {
    if latest == 0 || current.number_of() > latest {
        Err(LedgerError::MigrationError)
    } else {
        Ok(
            Seq::new(
                (latest - current.number_of()) as nat,
                |i: int| (current.number_of() + 1 + i) as usize,
            ),
        )
    }
}

/// The version of a store at `current` once the given steps have been applied.
pub open spec fn version_after(current: SchemaVersion, steps: Seq<usize>, latest: usize)
    -> SchemaVersion {
    if steps.len() == 0 {
        current
    } else {
        SchemaVersion::of_number(steps.last(), latest)
    }
}

/// The migration steps that are still to be applied to a store at `current`,
/// in ascending order. There is no way on where no step is known, or where the
/// store is ahead of every known step.
pub fn pending_migrations(current: SchemaVersion, latest: usize) -> (r: Result<
    Vec<usize>,
    LedgerError,
>)
    ensures
        match (r, pending_steps(current, latest)) {
            (Ok(steps), Ok(expected)) => steps@ == expected,
            (Err(e), Err(expected)) => e == expected,
            _ => false,
        },
{
    let from = current.number();
    if latest == 0 || from > latest {
        return Err(LedgerError::MigrationError);
    }
    let mut steps: Vec<usize> = Vec::new();
    let mut next: usize = from;
    while next < latest
        invariant
            from <= next <= latest,
            steps@ == Seq::new((next - from) as nat, |i: int| (from + 1 + i) as usize),
        decreases latest - next,
    {
        next = next + 1;
        steps.push(next);
        assert(steps@ =~= Seq::new((next - from) as nat, |i: int| (from + 1 + i) as usize));
    }
    Ok(steps)
}

/// What a migration does next.
#[derive(Clone, Copy, Debug, PartialEq, Eq, Structural)]
pub enum MigrationAction {
    /// Apply the step of this id, in one transaction.
    Apply(usize),
    /// The store is at the latest version: there is nothing left to apply.
    Finished,
}

/// What a migration does next on a store at `current`: apply the first
/// pending step, or finish where none is pending.
pub fn next_migration(current: SchemaVersion, latest: usize) -> (r: Result<
    MigrationAction,
    LedgerError,
>)
    ensures
        r == match pending_steps(current, latest) {
            Ok(steps) => Ok::<MigrationAction, LedgerError>(
                if steps.len() == 0 {
                    MigrationAction::Finished
                } else {
                    MigrationAction::Apply(steps[0])
                },
            ),
            Err(e) => Err::<MigrationAction, LedgerError>(e),
        },
{
    let from = current.number();
    if latest == 0 || from > latest {
        Err(LedgerError::MigrationError)
    } else if from == latest {
        Ok(MigrationAction::Finished)
    } else {
        Ok(MigrationAction::Apply(from + 1))
    }
}

/// The store's version after a step was tried, and whether the migration
/// goes on: a step that was applied brings the store to its version, a step
/// that failed leaves the store where it was and ends the migration.
pub fn step_done(current: SchemaVersion, step: usize, applied: bool, latest: usize) -> (r: (
    SchemaVersion,
    Result<(), LedgerError>,
))
    ensures
        r == if applied {
            (SchemaVersion::of_number(step, latest), Ok::<(), LedgerError>(()))
        } else {
            (current, Err::<(), LedgerError>(LedgerError::MigrationError))
        },
{
    if applied {
        (SchemaVersion::classify(step, latest), Ok(()))
    } else {
        (current, Err(LedgerError::MigrationError))
    }
}

/// Migrating a store that was just migrated applies no step: once the
/// pending steps have been applied, none is pending.
pub proof fn law_migrate_twice(current: SchemaVersion, latest: usize)
    requires
        pending_steps(current, latest) is Ok,
    ensures
        ({
            let steps = pending_steps(current, latest)->Ok_0;
            let after = version_after(current, steps, latest);
            &&& after.number_of() == latest
            &&& pending_steps(after, latest) == Ok::<Seq<usize>, LedgerError>(Seq::empty())
        }),
{
    let steps = pending_steps(current, latest)->Ok_0;
    let after = version_after(current, steps, latest);
    assert(pending_steps(after, latest)->Ok_0 =~= Seq::<usize>::empty());
}

/// Whether the character is a decimal digit.
pub open spec fn is_digit(c: char) -> bool {
    '0' <= c <= '9'
}

/// The number that a run of decimal digits writes.
pub open spec fn decimal_value(s: Seq<char>) -> int
    decreases s.len(),
{
    if s.len() == 0 {
        0
    } else {
        10 * decimal_value(s.drop_last()) + (s.last() as int - '0' as int)
    }
}

/// Where the first `-` of the name stands, or the name's length where it has none.
pub open spec fn first_dash(name: Seq<char>) -> int
    decreases name.len(),
{
    if name.len() == 0 || name[0] == '-' {
        0
    } else {
        1 + first_dash(name.skip(1))
    }
}

/// The digits of the name's leading id: what stands before the first `-`,
/// without a `+` in front.
pub open spec fn id_digits(name: Seq<char>) -> Seq<char> {
    let head = name.take(first_dash(name));
    if head.len() > 0 && head[0] == '+' {
        head.skip(1)
    } else {
        head
    }
}

/// The id of the migration step that a directory of the given name holds:
/// the number before the first `-`, where it is one that fits.
pub open spec fn named_id(name: Seq<char>) -> Option<usize> {
    let digits = id_digits(name);
    if digits.len() > 0 && (forall|i: int| 0 <= i < digits.len() ==> is_digit(#[trigger] digits[i]))
        && decimal_value(digits) <= usize::MAX {
        Some(decimal_value(digits) as usize)
    } else {
        None
    }
}

proof fn lemma_first_dash(name: Seq<char>, k: int)
    requires
        0 <= k <= name.len(),
        forall|i: int| 0 <= i < k ==> name[i] != '-',
        k == name.len() || name[k] == '-',
    ensures
        first_dash(name) == k,
    decreases k,
{
    if k > 0 {
        let rest = name.skip(1);
        assert forall|i: int| 0 <= i < k - 1 implies rest[i] != '-' by {
            assert(rest[i] == name[i + 1]);
        }
        lemma_first_dash(rest, k - 1);
    }
}

/// A run of digits writes at least what any shorter run from its start writes.
proof fn lemma_decimal_value_grows(s: Seq<char>, i: int)
    requires
        0 <= i <= s.len(),
        forall|t: int| 0 <= t < s.len() ==> is_digit(#[trigger] s[t]),
    ensures
        0 <= decimal_value(s.take(i)) <= decimal_value(s),
    decreases s.len() - i,
{
    if i == s.len() {
        assert(s.take(i) =~= s);
        lemma_decimal_value_nonnegative(s);
    } else {
        lemma_decimal_value_grows(s, i + 1);
        assert(s.take(i + 1).drop_last() =~= s.take(i));
        assert(is_digit(s[i]));
        lemma_decimal_value_nonnegative(s.take(i));
    }
}

proof fn lemma_decimal_value_nonnegative(s: Seq<char>)
    requires
        forall|t: int| 0 <= t < s.len() ==> is_digit(#[trigger] s[t]),
    ensures
        0 <= decimal_value(s),
    decreases s.len(),
{
    if s.len() > 0 {
        assert(is_digit(s[s.len() - 1]));
        lemma_decimal_value_nonnegative(s.drop_last());
    }
}

/// The id of the migration step that a directory of the given name holds: the
/// decimal number that stands before the first `-`, with or without a `+` in front.
pub fn migration_id(name: &str) -> (r: Option<usize>)
    ensures
        r == named_id(name@),
{
    let len: usize = name.unicode_len();
    let mut end: usize = 0;
    while end < len && name.get_char(end) != '-'
        invariant
            end <= len,
            len == name@.len(),
            forall|i: int| 0 <= i < end ==> name@[i] != '-',
        decreases len - end,
    {
        end = end + 1;
    }
    proof {
        lemma_first_dash(name@, end as int);
    }
    let start: usize = if end > 0 && name.get_char(0) == '+' {
        1
    } else {
        0
    };
    let ghost digits = id_digits(name@);
    proof {
        assert(digits =~= name@.subrange(start as int, end as int));
    }
    if start == end {
        return None;
    }
    let mut value: usize = 0;
    let mut at: usize = start;
    while at < end
        invariant
            start <= at <= end <= len,
            len == name@.len(),
            digits == id_digits(name@),
            digits == name@.subrange(start as int, end as int),
            forall|i: int| 0 <= i < at - start ==> is_digit(#[trigger] digits[i]),
            value == decimal_value(digits.take(at - start)),
        decreases end - at,
    {
        let c = name.get_char(at);
        proof {
            assert(digits[at - start] == c);
            assert(digits.take(at - start + 1).drop_last() =~= digits.take(at - start));
        }
        if c < '0' || c > '9' {
            proof {
                assert(!is_digit(digits[at - start]));
            }
            return None;
        }
        let digit: usize = (c as u32 - '0' as u32) as usize;
        if value > (usize::MAX - digit) / 10 {
            proof {
                if forall|i: int| 0 <= i < digits.len() ==> is_digit(#[trigger] digits[i]) {
                    lemma_decimal_value_grows(digits, at - start + 1);
                }
            }
            return None;
        }
        value = value * 10 + digit;
        at = at + 1;
    }
    proof {
        assert(digits.take(at - start) =~= digits);
    }
    Some(value)
}

/// Whether `latest` is the highest id among the named migration steps, or 0
/// where there is none above it.
pub open spec fn is_latest_of(names: Seq<String>, latest: usize) -> bool {
    &&& forall|i: int|
        0 <= i < names.len() ==> named_id((#[trigger] names[i])@) is Some && named_id(
            names[i]@,
        )->Some_0 <= latest
    &&& latest == 0 || exists|i: int|
        0 <= i < names.len() && named_id((#[trigger] names[i])@) == Some(latest)
}

/// The latest known version: the highest id among the migration steps of the
/// given names, and 0 where there is no step. A name without an id is refused.
pub fn latest_known_version(names: &Vec<String>) -> (r: Result<usize, LedgerError>)
    ensures
        match r {
            Ok(latest) => is_latest_of(names@, latest),
            Err(e) => e == LedgerError::MigrationError && exists|i: int|
                0 <= i < names@.len() && named_id((#[trigger] names@[i])@) is None,
        },
{
    let mut latest: usize = 0;
    let mut i: usize = 0;
    while i < names.len()
        invariant
            i <= names.len(),
            is_latest_of(names@.take(i as int), latest),
        decreases names.len() - i,
    {
        let ghost seen = names@.take(i as int);
        let ghost grown = names@.take(i as int + 1);
        match migration_id(names[i].as_str()) {
            None => {
                return Err(LedgerError::MigrationError);
            },
            Some(id) => {
                proof {
                    assert forall|k: int| 0 <= k < grown.len() implies named_id(
                        (#[trigger] grown[k])@,
                    ) is Some && named_id(grown[k]@)->Some_0 <= (if id > latest {
                        id
                    } else {
                        latest
                    }) by {
                        if k < i {
                            assert(seen[k] == grown[k]);
                        }
                    }
                    if id > latest {
                        assert(named_id(grown[i as int]@) == Some(id));
                    } else if latest != 0 {
                        let w = choose|w: int|
                            0 <= w < seen.len() && named_id((#[trigger] seen[w])@) == Some(latest);
                        assert(grown[w] == seen[w]);
                    }
                }
                if id > latest {
                    latest = id;
                }
            },
        }
        i = i + 1;
    }
    proof {
        assert(names@.take(i as int) =~= names@);
    }
    Ok(latest)
}

/// How a version is shown: its number, or a note that none is set.
pub open spec fn version_label(version: SchemaVersion) -> Seq<char> {
    match version {
        SchemaVersion::NoneSet => "Not set"@,
        SchemaVersion::Inside(v) => decimal_digits(v as nat),
        SchemaVersion::Outside(v) => decimal_digits(v as nat),
    }
}

/// What the schema command shows: the store's version and the latest known
/// one, each behind its caption and right-aligned to the wider of the two.
pub struct SchemaReport {
    pub current: String,
    pub latest: String,
}

/// The width to which the two versions are aligned: that of the wider one.
pub open spec fn report_width(current: SchemaVersion, latest: usize) -> nat {
    if version_label(current).len() >= decimal_digits(latest as nat).len() {
        version_label(current).len()
    } else {
        decimal_digits(latest as nat).len()
    }
}

/// The two lines of the schema command.
pub fn schema_info(current: SchemaVersion, latest: usize) -> (r: SchemaReport)
    ensures
        r.current@ == "Database schema version:  "@ + right_aligned(
            version_label(current),
            report_width(current, latest),
        ),
        r.latest@ == "Latest available version: "@ + right_aligned(
            decimal_digits(latest as nat),
            report_width(current, latest),
        ),
{
    let version_text = match current {
        SchemaVersion::NoneSet => String::from_str("Not set"),
        SchemaVersion::Inside(v) => decimal_text(v as u64),
        SchemaVersion::Outside(v) => decimal_text(v as u64),
    };
    let latest_text = decimal_text(latest as u64);
    let a: usize = version_text.as_str().unicode_len();
    let b: usize = latest_text.as_str().unicode_len();
    let width: usize = if a >= b {
        a
    } else {
        b
    };
    let mut first = String::from_str("Database schema version:  ");
    first.append(pad_left(version_text.as_str(), width).as_str());
    let mut second = String::from_str("Latest available version: ");
    second.append(pad_left(latest_text.as_str(), width).as_str());
    SchemaReport { current: first, latest: second }
}

/// The first migration step: the table of entries.
pub const CREATE_HOURS: &'static str =
    "CREATE TABLE hours (entry_id INTEGER PRIMARY KEY, date TEXT NOT NULL, time TEXT NOT NULL, deleted INTEGER NOT NULL DEFAULT 0);";

/// The second migration step: the undo log and its logical operations.
pub const CREATE_UNDOLOG: &'static str =
    "CREATE TABLE operations (op_id INTEGER PRIMARY KEY, processed INTEGER NOT NULL DEFAULT 0); CREATE TABLE undolog (row_id INTEGER PRIMARY KEY, entry_id INTEGER NOT NULL REFERENCES hours (entry_id), deleted_old INTEGER NOT NULL, processed INTEGER NOT NULL DEFAULT 0, op_id INTEGER NOT NULL REFERENCES operations (op_id));";

/// One step of the schema's evolution: its name, which starts with its id,
/// and the statements that carry it out.
pub struct MigrationStep {
    pub name: String,
    pub up: String,
}

/// Whether the steps are numbered from 1 in the order in which they stand.
pub open spec fn is_registry(steps: Seq<MigrationStep>) -> bool {
    forall|i: int|
        0 <= i < steps.len() ==> named_id((#[trigger] steps[i]).name@) == Some((i + 1) as usize)
}

/// The known migration steps, in the order in which they are applied.
pub fn migration_steps() -> (r: Vec<MigrationStep>)
    ensures
        r@.len() == 2,
        r@[0].name@ == "01-hours"@,
        r@[0].up@ == CREATE_HOURS@,
        r@[1].name@ == "02-undolog"@,
        r@[1].up@ == CREATE_UNDOLOG@,
{
    let mut steps: Vec<MigrationStep> = Vec::new();
    steps.push(
        MigrationStep { name: String::from_str("01-hours"), up: String::from_str(CREATE_HOURS) },
    );
    steps.push(
        MigrationStep {
            name: String::from_str("02-undolog"),
            up: String::from_str(CREATE_UNDOLOG),
        },
    );
    steps
}

/// Checks that the steps are numbered from 1 in the order in which they
/// stand, and returns the latest version: the number of steps.
pub fn validate_migrations(steps: &Vec<MigrationStep>) -> (r: Result<usize, LedgerError>)
    ensures
        r == if is_registry(steps@) {
            Ok::<usize, LedgerError>(steps@.len() as usize)
        } else {
            Err::<usize, LedgerError>(LedgerError::MigrationError)
        },
{
    let mut i: usize = 0;
    while i < steps.len()
        invariant
            i <= steps.len(),
            forall|k: int|
                0 <= k < i ==> named_id((#[trigger] steps@[k]).name@) == Some((k + 1) as usize),
        decreases steps.len() - i,
    {
        match migration_id(steps[i].name.as_str()) {
            Some(id) => {
                if id != i + 1 {
                    return Err(LedgerError::MigrationError);
                }
            },
            None => {
                return Err(LedgerError::MigrationError);
            },
        }
        i = i + 1;
    }
    Ok(steps.len())
}

} // verus!
