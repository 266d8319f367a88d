use crc_check::checksum::{crc32_of_bytes, Crc32};
use crc_check::policy::reconcile;
use crc_check::{Outcome, Verdict};

#[test]
fn crc32_standard_check_value() {
    assert_eq!(crc32_of_bytes(b"123456789"), 0xCBF43926);
}

#[test]
fn crc32_of_empty_stream_is_zero() {
    assert_eq!(crc32_of_bytes(b""), 0);
    assert_eq!(Crc32::new().finalize(), 0);
}

#[test]
fn crc32_is_independent_of_chunking() {
    let whole = crc32_of_bytes(b"123456789");
    let mut h = Crc32::new();
    h.update(b"1234");
    h.update(b"");
    h.update(b"56789");
    assert_eq!(h.finalize(), whole);
}

#[test]
fn crc32_agrees_with_crc32fast() {
    let data = b"the quick brown fox jumps over the lazy dog";
    assert_eq!(crc32_of_bytes(data), crc32fast::hash(data));
}

#[test]
fn computed_checksum_round_trips_through_a_name() {
    let c = crc32_of_bytes(b"some file content");
    let v = reconcile("notes.txt", c, false, true);
    match v {
        Verdict::Rename(Outcome::Added, n) => {
            assert_eq!(crc_check::extract_hash(&n), Some(c));
            match reconcile(&n, c, false, false) {
                Verdict::Keep(Outcome::Okay) => {},
                other => panic!("expected Ok on second run, got {:?}", other),
            }
        },
        other => panic!("expected Added rename, got {:?}", other),
    }
}
