//! The baseline store: a sharded, content-addressed, read-only store of
//! compressed baselines, one per content digest.
//!
//! The store itself reads no file: it says where a baseline lies and turns
//! what was found there into the baseline's serialized content.

use vstd::prelude::*;
use crate::archive::{decompress, zstd_decoded};
use crate::digest::ContentDigest;
use crate::error::HarnessError;
use crate::text::{ascii_bytes, copy_bytes, literal_bytes};

verus! {

/// The path of `name` under the directory `dir`: the two joined by one `/`,
/// which is left out where `dir` is empty or ends in one already.
pub open spec fn joined(dir: Seq<u8>, name: Seq<u8>) -> Seq<u8> {
    if dir.len() == 0 || dir.last() == 47 {
        dir + name
    } else {
        dir.push(47) + name
    }
}

/// The older layout's directory, nested in the baseline root.
pub open spec fn nested_dir(default_dir: Seq<u8>) -> Seq<u8> {
    joined(default_dir, ascii_bytes("baseline"@))
}

/// The directory that holds the shards: the nested one where it exists.
pub open spec fn resolved_dir(default_dir: Seq<u8>, nested_exists: bool) -> Seq<u8> {
    if nested_exists {
        nested_dir(default_dir)
    } else {
        default_dir
    }
}

/// Where the baseline of `digest` lies under `root`: in the shard named by
/// the digest's first two characters, in a file named by the whole digest.
pub open spec fn baseline_path(root: Seq<u8>, digest: Seq<u8>) -> Seq<u8> {
    joined(joined(root, digest.take(2)), digest + ascii_bytes(".json.zst"@))
}

/// Joins a directory and a name below it.
pub fn join_path(dir: &[u8], name: &[u8]) -> (r: Vec<u8>)
    ensures
        r@ == joined(dir@, name@),
{
    let mut r = copy_bytes(dir);
    if dir.len() > 0 && dir[dir.len() - 1] != 47 {
        r.push(47);
    }
    r.extend_from_slice(name);
    assert(r@ =~= joined(dir@, name@));
    r
}

/// The nested directory to probe for before a store is opened.
pub fn nested_baseline_dir(default_dir: &[u8]) -> (r: Vec<u8>)
    ensures
        r@ == nested_dir(default_dir@),
{
    proof {
        reveal_strlit("baseline");
    }
    let name = literal_bytes("baseline");
    join_path(default_dir, name.as_slice())
}

/// Chooses the directory that holds the shards: the nested `baseline`
/// directory where the probe found one, the given directory otherwise.
pub fn resolve_baseline_dir(default_dir: Vec<u8>, nested_exists: bool) -> (r: Vec<u8>)
    ensures
        r@ == resolved_dir(default_dir@, nested_exists),
{
    if nested_exists {
        nested_baseline_dir(default_dir.as_slice())
    } else {
        default_dir
    }
}

/// A baseline store. Its layout is fixed when it is opened.
#[derive(Debug)]
pub struct BaselineStore {
    pub root: Vec<u8>,
}

impl BaselineStore {
    /// Opens the store under `default_dir`, given whether the nested
    /// directory exists.
    pub fn open(default_dir: Vec<u8>, nested_exists: bool) -> (r: BaselineStore)
        ensures
            r.root@ == resolved_dir(default_dir@, nested_exists),
    {
        BaselineStore { root: resolve_baseline_dir(default_dir, nested_exists) }
    }

    /// The path at which the baseline of `digest` is stored.
    pub fn path_for(&self, digest: &ContentDigest) -> (r: Vec<u8>)
        ensures
            r@ == baseline_path(self.root@, digest@),
    {
        proof {
            reveal_strlit(".json.zst");
        }
        let text = digest.as_bytes();
        let mut shard: Vec<u8> = Vec::new();
        shard.push(text[0]);
        shard.push(text[1]);
        assert(shard@ =~= digest@.take(2));
        let dir = join_path(self.root.as_slice(), shard.as_slice());
        let mut name = copy_bytes(text);
        let suffix = literal_bytes(".json.zst");
        name.extend_from_slice(suffix.as_slice());
        assert(name@ =~= digest@ + ascii_bytes(".json.zst"@));
        join_path(dir.as_slice(), name.as_slice())
    }

    /// Resolves a baseline from what was found at its path: `None` where no
    /// file was there, which is no error; else the serialized baseline, or
    /// `CorruptArchive` where the stored stream cannot be decoded.
    pub fn resolve(&self, stored: Option<&[u8]>) -> (r: Result<Option<Vec<u8>>, HarnessError>)
        ensures
            match stored {
                None => r == Ok::<Option<Vec<u8>>, HarnessError>(None),
                Some(bytes) => match zstd_decoded(bytes@) {
                    Some(content) => r matches Ok(Some(c)) && c@ == content,
                    None => r matches Err(HarnessError::CorruptArchive),
                },
            },
    {
        match stored {
            None => Ok(None),
            Some(bytes) => match decompress(bytes) {
                Ok(content) => Ok(Some(content)),
                Err(e) => Err(e),
            },
        }
    }

    /// Holds a lookup miss to the store's policy: a fixture without a stored
    /// baseline fails with `MissingBaseline`, which names the digest and the
    /// path that was looked at.
    pub fn require(&self, digest: &ContentDigest, resolved: Option<Vec<u8>>) -> (r: Result<
        Vec<u8>,
        HarnessError,
    >)
        ensures
            match resolved {
                Some(content) => r == Ok::<Vec<u8>, HarnessError>(content),
                None => r matches Err(HarnessError::MissingBaseline { digest: d, path: p }) && d@
                    == digest@ && p@ == baseline_path(self.root@, digest@),
            },
    {
        match resolved {
            Some(content) => Ok(content),
            None => Err(
                HarnessError::MissingBaseline {
                    digest: copy_bytes(digest.as_bytes()),
                    path: self.path_for(digest),
                },
            ),
        }
    }
}

} // verus!
