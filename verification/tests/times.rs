use openplan::field::{Field, FieldError, ReadError, Rfc3339};
use openplan::metadata::updated_field;
use openplan::status::Timestamp;

// The instants of the scenarios, in seconds from the Unix epoch.
const JAN_1: i64 = 1767225600; // 2026-01-01T00:00:00Z
const FEB_1: i64 = 1769904000; // 2026-02-01T00:00:00Z
const MAR_1: i64 = 1772323200; // 2026-03-01T00:00:00Z

fn at(second: i64) -> Timestamp {
    Timestamp { second }
}

#[test]
fn a_git_derived_update_after_creation_is_reported_as_is() {
    let updated = updated_field(Some(at(JAN_1)), Ok(at(FEB_1)));
    assert_eq!(updated, Field::Value(Rfc3339(at(FEB_1))));
}

#[test]
fn an_update_before_creation_clamps_up_to_created() {
    let updated = updated_field(Some(at(MAR_1)), Ok(at(FEB_1)));
    assert_eq!(updated, Field::Value(Rfc3339(at(MAR_1))));
}

#[test]
fn a_store_only_read_reports_created_and_no_update() {
    let updated = updated_field(Some(at(JAN_1)), Err(ReadError::Missing));
    assert_eq!(updated, Field::Error(FieldError::Missing));
}

#[test]
fn a_commit_that_could_not_be_dated_reports_why_instead_of_a_time() {
    let updated = updated_field(
        Some(at(JAN_1)),
        Err(ReadError::Invalid("commit c0ffee has an unusable author date".to_owned())),
    );
    // Not clamped up to `created`: a reason is not a time, and inventing one here would hide the
    // very thing the field is reporting.
    assert_eq!(
        updated,
        Field::Error(FieldError::Invalid { message: "commit c0ffee has an unusable author date".to_owned() })
    );
}
