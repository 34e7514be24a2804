//! The lines that a run prints: one per fixture as it completes, and the
//! summary at the end.

use vstd::prelude::*;
use crate::error::{texts, HarnessError};
use crate::runner::Summary;
use crate::text::{ascii_bytes, literal_bytes};

verus! {

/// A number in decimal digits, without leading zeros.
pub open spec fn decimal_text(n: nat) -> Seq<u8>
    decreases n,
{
    if n < 10 {
        seq![(48 + n) as u8]
    } else {
        decimal_text(n / 10).push((48 + n % 10) as u8)
    }
}

/// The line that announces a run of `count` fixtures.
pub open spec fn running_text(count: nat) -> Seq<u8> {
    ascii_bytes("running "@) + decimal_text(count) + ascii_bytes(" tests"@)
}

/// The line of one fixture that completed.
pub open spec fn status_text(name: Seq<u8>, passed: bool) -> Seq<u8> {
    if passed {
        ascii_bytes("test "@) + name + ascii_bytes(" ... ok"@)
    } else {
        ascii_bytes("test "@) + name + ascii_bytes(" ... FAILED"@)
    }
}

/// The line of one failing fixture in the list of failures.
pub open spec fn listed_text(name: Seq<u8>) -> Seq<u8> {
    ascii_bytes("    "@) + name
}

/// The line that heads the detail of one failing fixture.
pub open spec fn heading_text(name: Seq<u8>) -> Seq<u8> {
    ascii_bytes("---- "@) + name + ascii_bytes(" ----"@)
}

/// The last line of a run.
pub open spec fn result_text(passed: nat, failed: nat) -> Seq<u8> {
    if failed == 0 {
        ascii_bytes("test result: ok. "@) + decimal_text(passed) + ascii_bytes(
            " passed; 0 failed"@,
        )
    } else {
        ascii_bytes("test result: FAILED. "@) + decimal_text(passed) + ascii_bytes(" passed; "@)
            + decimal_text(failed) + ascii_bytes(" failed"@)
    }
}

/// Appends an ASCII literal to a line.
pub fn push_literal(line: &mut Vec<u8>, lit: &str)
    requires
        lit.is_ascii(),
    ensures
        final(line)@ == old(line)@ + ascii_bytes(lit@),
{
    let ghost before = line@;
    let bytes = literal_bytes(lit);
    line.extend_from_slice(bytes.as_slice());
    assert(line@ =~= before + ascii_bytes(lit@));
}

/// Appends a text to a line.
pub fn push_text(line: &mut Vec<u8>, text: &[u8])
    ensures
        final(line)@ == old(line)@ + text@,
{
    let ghost before = line@;
    line.extend_from_slice(text);
    assert(line@ =~= before + text@);
}

/// Writes a number in decimal digits.
pub fn decimal(n: u64) -> (r: Vec<u8>)
    ensures
        r@ == decimal_text(n as nat),
    decreases n,
{
    if n < 10 {
        let mut r: Vec<u8> = Vec::new();
        r.push(48 + (n as u8));
        assert(r@ =~= decimal_text(n as nat));
        r
    } else {
        let mut r = decimal(n / 10);
        r.push(48 + ((n % 10) as u8));
        r
    }
}

/// The line that announces a run of `count` fixtures.
pub fn running_line(count: usize) -> (r: Vec<u8>)
    ensures
        r@ == running_text(count as nat),
{
    proof {
        reveal_strlit("running ");
        reveal_strlit(" tests");
    }
    let mut line: Vec<u8> = Vec::new();
    push_literal(&mut line, "running ");
    push_text(&mut line, decimal(count as u64).as_slice());
    push_literal(&mut line, " tests");
    assert(line@ =~= running_text(count as nat));
    line
}

/// The line of one fixture that completed.
pub fn status_line(name: &[u8], passed: bool) -> (r: Vec<u8>)
    ensures
        r@ == status_text(name@, passed),
{
    proof {
        reveal_strlit("test ");
        reveal_strlit(" ... ok");
        reveal_strlit(" ... FAILED");
    }
    let mut line: Vec<u8> = Vec::new();
    push_literal(&mut line, "test ");
    push_text(&mut line, name);
    if passed {
        push_literal(&mut line, " ... ok");
    } else {
        push_literal(&mut line, " ... FAILED");
    }
    assert(line@ =~= status_text(name@, passed));
    line
}

/// The line of one failing fixture in the list of failures.
pub fn listed_line(name: &[u8]) -> (r: Vec<u8>)
    ensures
        r@ == listed_text(name@),
{
    proof {
        reveal_strlit("    ");
    }
    let mut line: Vec<u8> = Vec::new();
    push_literal(&mut line, "    ");
    push_text(&mut line, name);
    assert(line@ =~= listed_text(name@));
    line
}

/// The line that heads the detail of one failing fixture.
pub fn heading_line(name: &[u8]) -> (r: Vec<u8>)
    ensures
        r@ == heading_text(name@),
{
    proof {
        reveal_strlit("---- ");
        reveal_strlit(" ----");
    }
    let mut line: Vec<u8> = Vec::new();
    push_literal(&mut line, "---- ");
    push_text(&mut line, name);
    push_literal(&mut line, " ----");
    assert(line@ =~= heading_text(name@));
    line
}

/// The last line of a run: the counts of fixtures that passed and failed.
pub fn result_line(summary: &Summary) -> (r: Vec<u8>)
    ensures
        r@ == result_text(summary.passed as nat, summary.failures@.len()),
{
    proof {
        reveal_strlit("test result: ok. ");
        reveal_strlit(" passed; 0 failed");
        reveal_strlit("test result: FAILED. ");
        reveal_strlit(" passed; ");
        reveal_strlit(" failed");
    }
    let failed: usize = summary.failures.len();
    let mut line: Vec<u8> = Vec::new();
    if failed == 0 {
        push_literal(&mut line, "test result: ok. ");
        push_text(&mut line, decimal(summary.passed).as_slice());
        push_literal(&mut line, " passed; 0 failed");
    } else {
        push_literal(&mut line, "test result: FAILED. ");
        push_text(&mut line, decimal(summary.passed).as_slice());
        push_literal(&mut line, " passed; ");
        push_text(&mut line, decimal(failed as u64).as_slice());
        push_literal(&mut line, " failed");
    }
    assert(line@ =~= result_text(summary.passed as nat, summary.failures@.len()));
    line
}

/// A hash between double quotes.
pub open spec fn quoted_text(item: Seq<u8>) -> Seq<u8> {
    seq![34u8] + item + seq![34u8]
}

/// Quoted hashes, separated by a comma and a space.
pub open spec fn items_text(items: Seq<Seq<u8>>) -> Seq<u8>
    decreases items.len(),
{
    if items.len() == 0 {
        Seq::empty()
    } else if items.len() == 1 {
        quoted_text(items[0])
    } else {
        items_text(items.drop_last()) + ascii_bytes(", "@) + quoted_text(items.last())
    }
}

/// A list of hashes between square brackets.
pub open spec fn list_text(items: Seq<Seq<u8>>) -> Seq<u8> {
    seq![91u8] + items_text(items) + seq![93u8]
}

/// The first two lines of a failure's message: what failed, and for which file.
pub open spec fn failure_head(title: Seq<char>, file: Seq<u8>) -> Seq<u8> {
    ascii_bytes(title) + seq![10u8] + ascii_bytes("File: "@) + file
}

/// The diagnostic message of a failure of the fixture stored at `file`: what
/// failed, the file, and the values needed to look into it.
pub open spec fn failure_text(error: HarnessError, file: Seq<u8>) -> Seq<u8> {
    match error {
        HarnessError::IoFailure { detail } => detail@,
        HarnessError::InvalidBaselineFormat { detail } => detail@,
        HarnessError::EngineFailure { detail } => detail@,
        HarnessError::CorruptArchive => failure_head("CORRUPT ARCHIVE"@, file),
        HarnessError::MissingBaseline { digest, path } => failure_head("MISSING BASELINE"@, file)
            + seq![10u8] + ascii_bytes("Hash: "@) + digest@ + seq![10u8] + ascii_bytes(
            "Expected baseline: "@,
        ) + path@,
        HarnessError::MissingChart { key } => failure_head("MISSING CHART DETECTED"@, file)
            + seq![10u8] + ascii_bytes("Expected: "@) + key.step_type@ + seq![32u8]
            + key.difficulty@,
        HarnessError::Mismatch { key, expected, actual } => failure_head(
            "MISMATCH DETECTED"@,
            file,
        ) + seq![10u8] + ascii_bytes("Chart: "@) + key.step_type@ + seq![32u8] + key.difficulty@
            + seq![10u8] + ascii_bytes("RSSP Hashes:   "@) + list_text(texts(actual@))
            + seq![10u8] + ascii_bytes("Golden Hashes: "@) + list_text(texts(expected@)),
    }
}

/// Appends one byte to a line.
pub fn push_byte(line: &mut Vec<u8>, b: u8)
    ensures
        final(line)@ == old(line)@ + seq![b],
{
    let ghost before = line@;
    line.push(b);
    assert(line@ =~= before + seq![b]);
}

/// Appends a list of hashes between square brackets.
pub fn push_list(line: &mut Vec<u8>, items: &Vec<Vec<u8>>)
    ensures
        final(line)@ == old(line)@ + list_text(texts(items@)),
{
    let ghost before = line@;
    let ghost all = texts(items@);
    push_byte(line, 91);
    let mut i: usize = 0;
    while i < items.len()
        invariant
            0 <= i <= items.len(),
            all == texts(items@),
            line@ == before + seq![91u8] + items_text(all.take(i as int)),
        decreases items.len() - i,
    {
        proof {
            reveal_strlit(", ");
            assert(all.take(i + 1).drop_last() =~= all.take(i as int));
            assert(all.take(i + 1).last() == items@[i as int]@);
        }
        let ghost so_far = line@;
        if i > 0 {
            push_literal(line, ", ");
        }
        push_byte(line, 34);
        push_text(line, items[i].as_slice());
        push_byte(line, 34);
        assert(line@ =~= before + seq![91u8] + items_text(all.take(i + 1)));
        i += 1;
    }
    assert(all.take(i as int) =~= all);
    push_byte(line, 93);
    assert(line@ =~= before + list_text(all));
}

/// Appends what failed and for which file.
pub fn push_head(line: &mut Vec<u8>, title: &str, file: &[u8])
    requires
        title.is_ascii(),
    ensures
        final(line)@ == old(line)@ + failure_head(title@, file@),
{
    proof {
        reveal_strlit("File: ");
    }
    let ghost before = line@;
    push_literal(line, title);
    push_byte(line, 10);
    push_literal(line, "File: ");
    push_text(line, file);
    assert(line@ =~= before + failure_head(title@, file@));
}

/// The diagnostic message of a failure of the fixture stored at `file`.
pub fn failure_message(error: &HarnessError, file: &[u8]) -> (r: Vec<u8>)
    ensures
        r@ == failure_text(*error, file@),
{
    let mut line: Vec<u8> = Vec::new();
    match error {
        HarnessError::IoFailure { detail } => {
            push_text(&mut line, detail.as_slice());
            assert(line@ =~= detail@);
        },
        HarnessError::InvalidBaselineFormat { detail } => {
            push_text(&mut line, detail.as_slice());
            assert(line@ =~= detail@);
        },
        HarnessError::EngineFailure { detail } => {
            push_text(&mut line, detail.as_slice());
            assert(line@ =~= detail@);
        },
        HarnessError::CorruptArchive => {
            proof {
                reveal_strlit("CORRUPT ARCHIVE");
            }
            push_head(&mut line, "CORRUPT ARCHIVE", file);
            assert(line@ =~= failure_text(*error, file@));
        },
        HarnessError::MissingBaseline { digest, path } => {
            proof {
                reveal_strlit("MISSING BASELINE");
                reveal_strlit("Hash: ");
                reveal_strlit("Expected baseline: ");
            }
            push_head(&mut line, "MISSING BASELINE", file);
            push_byte(&mut line, 10);
            push_literal(&mut line, "Hash: ");
            push_text(&mut line, digest.as_slice());
            push_byte(&mut line, 10);
            push_literal(&mut line, "Expected baseline: ");
            push_text(&mut line, path.as_slice());
            assert(line@ =~= failure_text(*error, file@));
        },
        HarnessError::MissingChart { key } => {
            proof {
                reveal_strlit("MISSING CHART DETECTED");
                reveal_strlit("Expected: ");
            }
            push_head(&mut line, "MISSING CHART DETECTED", file);
            push_byte(&mut line, 10);
            push_literal(&mut line, "Expected: ");
            push_text(&mut line, key.step_type.as_slice());
            push_byte(&mut line, 32);
            push_text(&mut line, key.difficulty.as_slice());
            assert(line@ =~= failure_text(*error, file@));
        },
        HarnessError::Mismatch { key, expected, actual } => {
            proof {
                reveal_strlit("MISMATCH DETECTED");
                reveal_strlit("Chart: ");
                reveal_strlit("RSSP Hashes:   ");
                reveal_strlit("Golden Hashes: ");
            }
            push_head(&mut line, "MISMATCH DETECTED", file);
            push_byte(&mut line, 10);
            push_literal(&mut line, "Chart: ");
            push_text(&mut line, key.step_type.as_slice());
            push_byte(&mut line, 32);
            push_text(&mut line, key.difficulty.as_slice());
            push_byte(&mut line, 10);
            push_literal(&mut line, "RSSP Hashes:   ");
            push_list(&mut line, actual);
            push_byte(&mut line, 10);
            push_literal(&mut line, "Golden Hashes: ");
            push_list(&mut line, expected);
            assert(line@ =~= failure_text(*error, file@));
        },
    }
    line
}

} // verus!
