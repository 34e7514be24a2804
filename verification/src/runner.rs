//! The test runner's rules: which fixtures a run selects, the steps of one
//! fixture's check that need no file access, and the tally of a run.
//!
//! A run is strictly sequential: one fixture is checked to the end before the
//! next begins, and a failure is recorded for its fixture and never ends the run.

use vstd::prelude::*;
use crate::archive::{decompress, zstd_decoded};
use crate::baseline::{baseline_path, BaselineStore};
use crate::digest::{hex_of, md5_of, ContentDigest};
use crate::error::HarnessError;
use crate::fixture::Fixture;
use crate::text::{bytes_eq, contains, contains_bytes};

verus! {

/// What the command line asks of a run.
#[derive(Debug, Clone)]
pub struct Config {
    /// Keeps the fixtures whose name holds this text, or is this text.
    pub filter: Option<Vec<u8>>,
    /// Whether the filter must be the whole name.
    pub exact: bool,
    /// Drops every fixture whose name holds one of these texts.
    pub skip: Vec<Vec<u8>>,
    /// Asks for the ignored fixtures only. There are none.
    pub ignored: bool,
    /// Asks for the names only.
    pub list: bool,
}

/// Whether the filter keeps `name`.
pub open spec fn passes_filter(config: Config, name: Seq<u8>) -> bool {
    match config.filter {
        None => true,
        Some(f) => if config.exact {
            name == f@
        } else {
            contains(name, f@)
        },
    }
}

/// Whether an exclusion drops `name`.
pub open spec fn excluded(config: Config, name: Seq<u8>) -> bool {
    exists|i: int| 0 <= i < config.skip@.len() && contains(name, (#[trigger] config.skip@[i])@)
}

/// Whether a run under `config` takes the fixture `name`.
pub open spec fn selected(config: Config, name: Seq<u8>) -> bool {
    !config.ignored && passes_filter(config, name) && !excluded(config, name)
}

/// The fixtures of `all` that a run under `config` takes, in their order.
pub open spec fn selection(config: Config, all: Seq<Fixture>) -> Seq<Fixture> {
    all.filter(|f: Fixture| selected(config, f.display_name@))
}

/// Whether a run under `config` takes the fixture `name`.
pub fn is_selected(config: &Config, name: &[u8]) -> (r: bool)
    ensures
        r == selected(*config, name@),
{
    if config.ignored {
        return false;
    }
    let kept = match &config.filter {
        None => true,
        Some(f) => if config.exact {
            bytes_eq(name, f.as_slice())
        } else {
            contains_bytes(name, f.as_slice())
        },
    };
    if !kept {
        return false;
    }
    let mut i: usize = 0;
    while i < config.skip.len()
        invariant
            0 <= i <= config.skip.len(),
            forall|j: int| 0 <= j < i ==> !contains(name@, (#[trigger] config.skip@[j])@),
        decreases config.skip.len() - i,
    {
        if contains_bytes(name, config.skip[i].as_slice()) {
            return false;
        }
        i += 1;
    }
    true
}

/// Drops from `fixtures` what a run under `config` does not take. The rest
/// keeps its order.
pub fn select(fixtures: &mut Vec<Fixture>, config: &Config)
    ensures
        final(fixtures)@ == selection(*config, old(fixtures)@),
{
    let ghost all = fixtures@;
    let ghost mut seen: int = 0;
    let mut i: usize = 0;
    proof {
        reveal(Seq::filter);
        assert(fixtures@.take(0) =~= selection(*config, all.take(0)));
        assert(fixtures@.skip(0) =~= all.skip(0));
    }
    while i < fixtures.len()
        invariant
            0 <= i <= fixtures.len(),
            0 <= seen <= all.len(),
            fixtures@.take(i as int) == selection(*config, all.take(seen)),
            fixtures@.skip(i as int) == all.skip(seen),
        decreases fixtures.len() - i,
    {
        let ghost before = fixtures@;
        proof {
            reveal(Seq::filter);
            assert(before.skip(i as int).len() == all.skip(seen).len());
            assert(before[i as int] == before.skip(i as int)[0]);
            assert(all[seen] == all.skip(seen)[0]);
            assert(all.take(seen + 1).drop_last() =~= all.take(seen));
        }
        if is_selected(config, fixtures[i].display_name.as_slice()) {
            proof {
                assert(before.take(i + 1) =~= before.take(i as int).push(before[i as int]));
                assert(before.skip(i + 1) =~= before.skip(i as int).skip(1));
                assert(all.skip(seen + 1) =~= all.skip(seen).skip(1));
                seen = seen + 1;
            }
            i += 1;
        } else {
            let _ = fixtures.remove(i);
            proof {
                assert(fixtures@.take(i as int) =~= before.take(i as int));
                assert(fixtures@.skip(i as int) =~= before.skip(i as int).skip(1));
                assert(all.skip(seen + 1) =~= all.skip(seen).skip(1));
                seen = seen + 1;
            }
        }
    }
    proof {
        assert(fixtures@.skip(i as int).len() == 0);
        assert(all.skip(seen).len() == 0);
        assert(all.take(seen) =~= all);
        assert(fixtures@.take(i as int) =~= fixtures@);
    }
}

/// The first step of a fixture's check: recovers the raw content of the
/// stored fixture and derives its content digest. Fails with
/// `CorruptArchive` exactly when the stored stream cannot be decoded.
pub fn open_fixture(stored: &[u8]) -> (r: Result<(Vec<u8>, ContentDigest), HarnessError>)
    ensures
        match zstd_decoded(stored@) {
            Some(raw) => r matches Ok((content, digest)) && content@ == raw && digest@ == hex_of(
                md5_of(raw),
            ),
            None => r matches Err(HarnessError::CorruptArchive),
        },
{
    match decompress(stored) {
        Ok(content) => {
            let digest = ContentDigest::of_content(content.as_slice());
            Ok((content, digest))
        },
        Err(e) => Err(e),
    }
}

/// The second step: the serialized baseline of `digest` from what was found
/// at its path. Where nothing was found the check fails with
/// `MissingBaseline`; where the stored stream cannot be decoded, with
/// `CorruptArchive`.
pub fn load_baseline(store: &BaselineStore, digest: &ContentDigest, stored: Option<&[u8]>) -> (r:
    Result<Vec<u8>, HarnessError>)
    ensures
        match stored {
            None => r matches Err(HarnessError::MissingBaseline { digest: d, path: p }) && d@
                == digest@ && p@ == baseline_path(store.root@, digest@),
            Some(bytes) => match zstd_decoded(bytes@) {
                Some(content) => r matches Ok(c) && c@ == content,
                None => r matches Err(HarnessError::CorruptArchive),
            },
        },
{
    match store.resolve(stored) {
        Ok(resolved) => store.require(digest, resolved),
        Err(e) => Err(e),
    }
}

/// A fixture that failed, with the reason.
#[derive(Debug, Clone)]
pub struct Failure {
    pub name: Vec<u8>,
    pub error: HarnessError,
}

/// The tally of a run.
#[derive(Debug, Clone)]
pub struct Summary {
    pub passed: u64,
    pub failures: Vec<Failure>,
}

/// The exit status of a run in which a fixture failed.
pub const EXIT_FAILED: i32 = 101;

impl Summary {
    /// The tally of a run before its first fixture.
    pub fn new() -> (r: Summary)
        ensures
            r.passed == 0,
            r.failures@.len() == 0,
    {
        Summary { passed: 0, failures: Vec::new() }
    }

    /// Records the outcome of one fixture: a pass is counted, a failure is
    /// kept with the fixture's name, after those recorded before.
    pub fn record(&mut self, name: Vec<u8>, outcome: Result<(), HarnessError>)
        requires
            old(self).passed < u64::MAX,
        ensures
            match outcome {
                Ok(_) => final(self).passed == old(self).passed + 1 && final(self).failures@ == old(
                    self,
                ).failures@,
                Err(error) => final(self).passed == old(self).passed && final(self).failures@
                    == old(self).failures@.push(Failure { name, error }),
            },
    {
        match outcome {
            Ok(_) => {
                self.passed = self.passed + 1;
            },
            Err(error) => {
                self.failures.push(Failure { name, error });
            },
        }
    }

    /// The number of fixtures that failed.
    pub fn failed(&self) -> (r: usize)
        ensures
            r == self.failures@.len(),
    {
        self.failures.len()
    }

    /// The exit status of the run: zero where every fixture passed, the
    /// status reserved for failure otherwise.
    pub fn exit_code(&self) -> (r: i32)
        ensures
            r == if self.failures@.len() == 0 {
                0
            } else {
                EXIT_FAILED
            },
    {
        if self.failures.len() == 0 {
            0
        } else {
            EXIT_FAILED
        }
    }
}

} // verus!
