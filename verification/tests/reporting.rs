use hash_parity::error::{ChartGroupKey, HarnessError};
use hash_parity::report::{
    decimal, failure_message, heading_line, listed_line, result_line, running_line, status_line,
};
use hash_parity::runner::Summary;

fn shown(bytes: Vec<u8>) -> String {
    String::from_utf8(bytes).unwrap()
}

fn key() -> ChartGroupKey {
    ChartGroupKey { step_type: b"dance-single".to_vec(), difficulty: b"hard".to_vec() }
}

#[test]
fn numbers_in_decimal() {
    assert_eq!(shown(decimal(0)), "0");
    assert_eq!(shown(decimal(7)), "7");
    assert_eq!(shown(decimal(10)), "10");
    assert_eq!(shown(decimal(1234567890)), "1234567890");
    assert_eq!(shown(decimal(u64::MAX)), "18446744073709551615");
}

#[test]
fn lines_of_a_run() {
    assert_eq!(shown(running_line(12)), "running 12 tests");
    assert_eq!(shown(running_line(0)), "running 0 tests");
    assert_eq!(
        shown(status_line(b"PackA/Song1/file.ssc.zst", true)),
        "test PackA/Song1/file.ssc.zst ... ok"
    );
    assert_eq!(
        shown(status_line(b"PackA/Song1/file.ssc.zst", false)),
        "test PackA/Song1/file.ssc.zst ... FAILED"
    );
    assert_eq!(shown(listed_line(b"PackA/Song1/file.ssc.zst")), "    PackA/Song1/file.ssc.zst");
    assert_eq!(shown(heading_line(b"PackA/Song1/file.ssc.zst")), "---- PackA/Song1/file.ssc.zst ----");
}

#[test]
fn last_line_of_a_run() {
    let mut summary = Summary::new();
    assert_eq!(shown(result_line(&summary)), "test result: ok. 0 passed; 0 failed");
    summary.record(b"a".to_vec(), Ok(()));
    summary.record(b"b".to_vec(), Ok(()));
    assert_eq!(shown(result_line(&summary)), "test result: ok. 2 passed; 0 failed");
    summary.record(b"c".to_vec(), Err(HarnessError::CorruptArchive));
    assert_eq!(shown(result_line(&summary)), "test result: FAILED. 2 passed; 1 failed");
}

#[test]
fn message_of_a_mismatch() {
    let error = HarnessError::Mismatch {
        key: key(),
        expected: vec![b"abc123".to_vec()],
        actual: vec![b"xyz999".to_vec()],
    };
    assert_eq!(
        shown(failure_message(&error, b"packs/PackA/Song1/file.ssc.zst")),
        "MISMATCH DETECTED\nFile: packs/PackA/Song1/file.ssc.zst\nChart: dance-single hard\n\
         RSSP Hashes:   [\"xyz999\"]\nGolden Hashes: [\"abc123\"]"
    );
    let several = HarnessError::Mismatch {
        key: key(),
        expected: vec![b"a".to_vec(), b"b".to_vec(), b"c".to_vec()],
        actual: Vec::new(),
    };
    assert_eq!(
        shown(failure_message(&several, b"f")),
        "MISMATCH DETECTED\nFile: f\nChart: dance-single hard\n\
         RSSP Hashes:   []\nGolden Hashes: [\"a\", \"b\", \"c\"]"
    );
}

#[test]
fn messages_of_the_other_failures() {
    assert_eq!(
        shown(failure_message(&HarnessError::MissingChart { key: key() }, b"f.sm.zst")),
        "MISSING CHART DETECTED\nFile: f.sm.zst\nExpected: dance-single hard"
    );
    let missing = HarnessError::MissingBaseline {
        digest: b"d41d8cd98f00b204e9800998ecf8427e".to_vec(),
        path: b"baseline/d4/d41d8cd98f00b204e9800998ecf8427e.json.zst".to_vec(),
    };
    assert_eq!(
        shown(failure_message(&missing, b"f.sm.zst")),
        "MISSING BASELINE\nFile: f.sm.zst\nHash: d41d8cd98f00b204e9800998ecf8427e\n\
         Expected baseline: baseline/d4/d41d8cd98f00b204e9800998ecf8427e.json.zst"
    );
    assert_eq!(
        shown(failure_message(&HarnessError::CorruptArchive, b"f.sm.zst")),
        "CORRUPT ARCHIVE\nFile: f.sm.zst"
    );
    let detail = b"Failed to read file: gone".to_vec();
    assert_eq!(
        failure_message(&HarnessError::IoFailure { detail: detail.clone() }, b"f"),
        detail
    );
    assert_eq!(
        failure_message(&HarnessError::InvalidBaselineFormat { detail: detail.clone() }, b"f"),
        detail
    );
    assert_eq!(failure_message(&HarnessError::EngineFailure { detail: detail.clone() }, b"f"), detail);
}
