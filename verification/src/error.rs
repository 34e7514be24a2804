//! Why the check of one fixture failed.

use vstd::prelude::*;
use crate::text::folded;

verus! {

/// The pair (step type, difficulty) under which chart entries are grouped.
/// Both parts are stored folded to ASCII lower case.
#[derive(Debug, Clone)]
pub struct ChartGroupKey {
    pub step_type: Vec<u8>,
    pub difficulty: Vec<u8>,
}

impl View for ChartGroupKey {
    type V = (Seq<u8>, Seq<u8>);

    open spec fn view(&self) -> (Seq<u8>, Seq<u8>) {
        (self.step_type@, self.difficulty@)
    }
}

/// The key of an entry with the given step type and difficulty.
pub open spec fn key_of(step_type: Seq<u8>, difficulty: Seq<u8>) -> (Seq<u8>, Seq<u8>) {
    (folded(step_type), folded(difficulty))
}

/// The views of a list of byte strings.
pub open spec fn texts(v: Seq<Vec<u8>>) -> Seq<Seq<u8>> {
    Seq::new(v.len(), |i: int| v[i]@)
}

/// A failure of one fixture's check. A failure belongs to its fixture alone
/// and never ends the run.
#[derive(Debug, Clone)]
pub enum HarnessError {
    /// A file could not be read.
    IoFailure { detail: Vec<u8> },
    /// A compressed stream, of a fixture or of a baseline, could not be decoded.
    CorruptArchive,
    /// The baseline's content is not a sequence of baseline entries.
    InvalidBaselineFormat { detail: Vec<u8> },
    /// The engine rejected the fixture's content.
    EngineFailure { detail: Vec<u8> },
    /// No baseline is stored for the fixture's digest.
    MissingBaseline { digest: Vec<u8>, path: Vec<u8> },
    /// The baseline has a chart group that the engine did not produce.
    MissingChart { key: ChartGroupKey },
    /// A chart group's hashes differ from the baseline's.
    Mismatch { key: ChartGroupKey, expected: Vec<Vec<u8>>, actual: Vec<Vec<u8>> },
}

} // verus!
