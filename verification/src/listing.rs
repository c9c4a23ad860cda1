//! What a walk over a profile dir finds on disk.

use vstd::prelude::*;

use crate::inventory::FingerprintDir;
use crate::text::{self, chars_of, find_last, string_of};
use crate::timestamp::Timestamp;

verus! {

/// What an entry of a directory is.
#[derive(Clone, Copy, Debug, PartialEq, Eq, Structural)]
pub enum EntryKind {
    File,
    Dir,
    /// A symbolic link, a socket and the like.
    Other,
}

/// An entry of a directory.
#[derive(Debug)]
pub struct Entry {
    /// The name, with a replacement character for what is no Unicode.
    pub name: String,
    /// Whether the name is Unicode as it stands on disk.
    pub is_unicode: bool,
    pub kind: EntryKind,
}

/// An entry of a crate's dir in `incremental/`.
#[derive(Debug)]
pub struct SessionEntry {
    pub name: String,
    pub is_dir: bool,
    pub modified: Timestamp,
    /// Whether a lock file stands beside the entry.
    pub has_lock: bool,
}

/// An entry of `incremental/`.
#[derive(Debug)]
pub struct CacheDir {
    pub name: String,
    pub is_dir: bool,
    pub sessions: Vec<SessionEntry>,
}

impl CacheDir {
    /// The crate whose incremental cache this is. The name is
    /// `<crate_snake>-<rustc_hash>`, where the hash has no `-`.
    pub open spec fn cached_crate(self) -> Option<Seq<char>> {
        if self.is_dir {
            match text::last_position(self.name@, '-') {
                Some(dash) => Some(self.name@.take(dash)),
                None => None,
            }
        } else {
            None
        }
    }

    /// The crate whose incremental cache this is.
    pub fn crate_name(&self) -> (r: Option<String>)
        ensures
            match r {
                Some(name) => self.cached_crate() == Some(name@),
                None => self.cached_crate() is None,
            },
    {
        if !self.is_dir {
            return None;
        }
        let v = chars_of(self.name.as_str());
        match find_last(&v, '-') {
            Some(dash) => {
                proof {
                    text::lemma_last_position(v@, '-');
                    assert(v@.subrange(0, dash as int) =~= v@.take(dash as int));
                }
                Some(string_of(&v, 0, dash))
            },
            None => None,
        }
    }
}

/// A profile dir.
#[derive(Debug)]
pub struct ProfileListing {
    /// The entries of `.fingerprint/`.
    pub fingerprints: Vec<FingerprintDir>,
    /// The entries of `deps/`.
    pub deps: Vec<Entry>,
    /// The entries of `build/`.
    pub build: Vec<Entry>,
    /// The entries of `incremental/`.
    pub incremental: Vec<CacheDir>,
    /// The entries of the profile dir itself.
    pub top_level: Vec<Entry>,
    /// The entries of `examples/`.
    pub examples: Vec<Entry>,
}

} // verus!
