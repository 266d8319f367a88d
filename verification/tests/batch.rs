use crc_check::batch::{plan_one, run_batch, BatchEntry};
use crc_check::{EngineError, Outcome, Verdict};

#[test]
fn unreadable_file_fails_alone() {
    let v = plan_one("file.txt", None, true, true);
    match v {
        Verdict::Failed(EngineError::IoFailure) => {},
        other => panic!("expected IoFailure, got {:?}", other),
    }
}

#[test]
fn batch_isolates_an_unreadable_file() {
    let entries = vec![
        BatchEntry { name: String::from("good[CBF43926].txt"), checksum: Some(0xCBF43926) },
        BatchEntry { name: String::from("bad.txt"), checksum: None },
        BatchEntry { name: String::from("stale[00000000].txt"), checksum: Some(0x00000005) },
    ];
    let verdicts = run_batch(&entries, false, false);
    assert_eq!(verdicts.len(), 3);
    match &verdicts[0] {
        Verdict::Keep(Outcome::Okay) => {},
        other => panic!("expected Ok for the first file, got {:?}", other),
    }
    match &verdicts[1] {
        Verdict::Failed(EngineError::IoFailure) => {},
        other => panic!("expected IoFailure for the unreadable file, got {:?}", other),
    }
    match &verdicts[2] {
        Verdict::Keep(Outcome::Mismatch) => {},
        other => panic!("expected Mismatch for the last file, got {:?}", other),
    }
}

#[test]
fn batch_plans_renames_per_entry() {
    let entries = vec![
        BatchEntry { name: String::from("a.txt"), checksum: Some(1) },
        BatchEntry { name: String::from("b.txt"), checksum: Some(2) },
    ];
    let verdicts = run_batch(&entries, false, true);
    assert_eq!(verdicts.len(), 2);
    match &verdicts[0] {
        Verdict::Rename(Outcome::Added, n) => assert_eq!(n, "a[00000001].txt"),
        other => panic!("expected Added rename, got {:?}", other),
    }
    match &verdicts[1] {
        Verdict::Rename(Outcome::Added, n) => assert_eq!(n, "b[00000002].txt"),
        other => panic!("expected Added rename, got {:?}", other),
    }
}
