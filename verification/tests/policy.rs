use crc_check::extract_hash;
use crc_check::policy::{reconcile, report_line};
use crc_check::{EngineError, Outcome, Verdict};

fn expect_keep(v: &Verdict, outcome: Outcome) {
    match v {
        Verdict::Keep(o) => assert_eq!(*o, outcome),
        other => panic!("expected Keep({:?}), got {:?}", outcome, other),
    }
}

fn expect_rename(v: &Verdict, outcome: Outcome, new_name: &str) {
    match v {
        Verdict::Rename(o, n) => {
            assert_eq!(*o, outcome);
            assert_eq!(n, new_name);
        },
        other => panic!("expected Rename({:?}, {}), got {:?}", outcome, new_name, other),
    }
}

#[test]
fn token_added_before_extension() {
    let v = reconcile("file.txt", 0xAABBCCDD, false, true);
    expect_rename(&v, Outcome::Added, "file[AABBCCDD].txt");
}

#[test]
fn add_round_trip_reports_ok() {
    let v = reconcile("file.txt", 0x0000002A, true, true);
    match v {
        Verdict::Rename(Outcome::Added, n) => {
            assert_eq!(n, "file[0000002A].txt");
            assert_eq!(extract_hash(&n), Some(0x2A));
            let again = reconcile(&n, 0x2A, true, true);
            expect_keep(&again, Outcome::Okay);
        },
        other => panic!("expected Added rename, got {:?}", other),
    }
}

#[test]
fn skipped_without_add_flag() {
    let v = reconcile("file.txt", 0x2A, true, false);
    expect_keep(&v, Outcome::Skipped);
}

#[test]
fn ok_is_idempotent() {
    let v1 = reconcile("file[0000002A].txt", 0x2A, true, true);
    expect_keep(&v1, Outcome::Okay);
    let v2 = reconcile("file[0000002A].txt", 0x2A, false, false);
    expect_keep(&v2, Outcome::Okay);
}

#[test]
fn update_repairs_stale_token() {
    let v = reconcile("file[00000000].txt", 0x11111111, true, false);
    expect_rename(&v, Outcome::Updated, "file[11111111].txt");
    assert_eq!(extract_hash("file[11111111].txt"), Some(0x11111111));
    let again = reconcile("file[11111111].txt", 0x11111111, true, false);
    expect_keep(&again, Outcome::Okay);
}

#[test]
fn mismatch_without_update_keeps_name() {
    let v = reconcile("file[00000000].txt", 0x11111111, false, false);
    expect_keep(&v, Outcome::Mismatch);
}

#[test]
fn update_replaces_every_occurrence_of_the_token_text() {
    let v = reconcile("a[00000000]b[00000000].txt", 0x00000001, true, false);
    expect_rename(&v, Outcome::Updated, "a[00000001]b[00000001].txt");
}

#[test]
fn update_of_lowercase_token_inserts_near_extension() {
    // the stale token parses case-insensitively, but its text is not the
    // canonical uppercase rendering, so replacement changes nothing and the
    // fresh token is anchored at the extension instead
    let v = reconcile("file[aabbccdd].txt", 0x00000001, true, false);
    expect_rename(&v, Outcome::Updated, "file[aabbccdd][00000001].txt");
    assert_eq!(extract_hash("file[aabbccdd][00000001].txt"), Some(1));
}

#[test]
fn update_without_anchor_or_replaceable_text_fails_that_file() {
    // the stale token is not in canonical form, so replacement changes
    // nothing, and without a `.` there is nowhere to anchor the fresh token
    let v = reconcile("x[aabbccdd]", 0x00000001, true, false);
    match v {
        Verdict::Failed(EngineError::NoExtensionAnchor) => {},
        other => panic!("expected NoExtensionAnchor, got {:?}", other),
    }
}

#[test]
fn add_without_extension_fails_that_file() {
    let v = reconcile("noext", 0x2A, false, true);
    match v {
        Verdict::Failed(EngineError::NoExtensionAnchor) => {},
        other => panic!("expected NoExtensionAnchor, got {:?}", other),
    }
}

#[test]
fn outcome_labels() {
    assert_eq!(Outcome::Okay.label(), "OK");
    assert_eq!(Outcome::Mismatch.label(), "MISMATCH");
    assert_eq!(Outcome::Updated.label(), "UPDATED");
    assert_eq!(Outcome::Added.label(), "ADDED");
    assert_eq!(Outcome::Skipped.label(), "SKIPPED");
    assert_eq!(EngineError::IoFailure.label(), "IO ERROR");
    assert_eq!(EngineError::RenameFailed.label(), "RENFAIL");
    assert_eq!(EngineError::NoExtensionAnchor.label(), "NOANCHOR");
}

#[test]
fn report_lines_are_right_aligned() {
    assert_eq!(report_line("OK", "x.txt"), "      OK - x.txt");
    assert_eq!(report_line("MISMATCH", "y"), "MISMATCH - y");
    assert_eq!(
        report_line("OK", "archive[A1B2C3D4].zip"),
        "      OK - archive[A1B2C3D4].zip"
    );
}
