//! The names that cargo gives to the files and directories of a profile, and
//! the live-hash inventory of its `.fingerprint/`.
//!
//! Each `<profile>/.fingerprint/<crate>-<HASH>/` entry is a "unit" cargo has
//! compiled. The 16-hex-char trailing hash is the same hash that appears in
//! `<profile>/deps/<crate_snake>-<HASH>.{rlib,rmeta,d,…}` and in
//! `<profile>/build/<crate>-<HASH>/`. So if we keep the union of those
//! hashes (filtered to live crates) we know exactly what's referenced.

use vstd::prelude::*;
use vstd::string::StrSliceExecFns;

use crate::live_set::{LiveNames, LiveSet};
use crate::names::NameSet;
use crate::order;
use crate::text::{self, chars_of, find_last};
use crate::timestamp::Timestamp;

verus! {

broadcast use vstd::seq::group_seq_axioms;

/// Whether `c` is a digit or one of the letters `a` to `f`.
pub open spec fn is_lower_hex(c: char) -> bool {
    ('0' as int <= c as int <= '9' as int) || ('a' as int <= c as int <= 'f' as int)
}

/// Whether `s` is a hash: sixteen lowercase hexadecimal digits.
pub open spec fn is_hash(s: Seq<char>) -> bool {
    s.len() == 16 && forall|i: int| 0 <= i < 16 ==> is_lower_hex(#[trigger] s[i])
}

/// The crate name and the hash of a unit named `<crate>-<hash>`.
pub open spec fn unit_parts(s: Seq<char>) -> Option<(Seq<char>, Seq<char>)> {
    match text::last_position(s, '-') {
        Some(dash) => if dash != 0 && is_hash(s.skip(dash + 1)) {
            Some((s.take(dash), s.skip(dash + 1)))
        } else {
            None
        },
        None => None,
    }
}

/// A file name without its last extension.
pub open spec fn stem(filename: Seq<char>) -> Seq<char> {
    match text::last_position(filename, '.') {
        Some(dot) => filename.take(dot),
        None => filename,
    }
}

/// The hash in a file name of `deps/`.
pub open spec fn deps_hash(filename: Seq<char>) -> Option<Seq<char>> {
    match text::last_position(stem(filename), '-') {
        Some(dash) => if is_hash(stem(filename).skip(dash + 1)) {
            Some(stem(filename).skip(dash + 1))
        } else {
            None
        },
        None => None,
    }
}

/// `s` with every `-` turned into `_`.
pub open spec fn snake(s: Seq<char>) -> Seq<char> {
    s.map_values(
        |c: char|
            if c == '-' {
                '_'
            } else {
                c
            },
    )
}

/// Whether the characters of `v` from `from` up to `to` are a hash.
fn is_hash16(v: &Vec<char>, from: usize, to: usize) -> (r: bool)
    requires
        from <= to <= v.len(),
    ensures
        r == is_hash(v@.subrange(from as int, to as int)),
{
    let ghost s = v@.subrange(from as int, to as int);
    if to - from != 16 {
        return false;
    }
    let mut i: usize = from;
    while i < to
        invariant
            from <= i <= to <= v.len(),
            to - from == 16,
            s == v@.subrange(from as int, to as int),
            forall|j: int| 0 <= j < i - from ==> is_lower_hex(#[trigger] s[j]),
        decreases to - i,
    {
        let c = v[i];
        assert(s[i - from] == c);
        if !(('0' <= c && c <= '9') || ('a' <= c && c <= 'f')) {
            return false;
        }
        i = i + 1;
    }
    true
}

/// Parse `name-deadbeefdeadbeef` into `("name", "deadbeefdeadbeef")`.
/// Returns None unless the trailing segment is exactly 16 lowercase hex chars.
pub fn parse_unit_dirname(s: &str) -> (r: Option<(&str, &str)>)
    ensures
        match r {
            Some((name, hash)) => unit_parts(s@) == Some((name@, hash@)),
            None => unit_parts(s@) is None,
        },
{
    let v = chars_of(s);
    let dash: usize = match find_last(&v, '-') {
        Some(dash) => dash,
        None => {
            return None;
        },
    };
    proof {
        text::lemma_last_position(v@, '-');
        assert(v@.subrange(dash + 1, v@.len() as int) =~= s@.skip(dash + 1));
    }
    if dash == 0 || !is_hash16(&v, dash + 1, v.len()) {
        return None;
    }
    Some((s.substring_char(0, dash), s.substring_char(dash + 1, v.len())))
}

/// Extract a 16-hex-char hash from a deps/ filename like `libfoo-<hash>.rlib`,
/// `foo-<hash>.d`, or `foo-<hash>` (executable, no extension).
pub fn extract_deps_hash(filename: &str) -> (r: Option<&str>)
    ensures
        match r {
            Some(hash) => deps_hash(filename@) == Some(hash@),
            None => deps_hash(filename@) is None,
        },
{
    let root = file_stem(filename);
    let v = chars_of(root);
    let dash: usize = match find_last(&v, '-') {
        Some(dash) => dash,
        None => {
            return None;
        },
    };
    proof {
        text::lemma_last_position(v@, '-');
        assert(v@.subrange(dash + 1, v@.len() as int) =~= root@.skip(dash + 1));
    }
    if is_hash16(&v, dash + 1, v.len()) {
        Some(root.substring_char(dash + 1, v.len()))
    } else {
        None
    }
}

/// A file name without its last extension.
pub fn file_stem(filename: &str) -> (r: &str)
    ensures
        r@ == stem(filename@),
{
    let v = chars_of(filename);
    match find_last(&v, '.') {
        Some(dot) => {
            proof {
                text::lemma_last_position(v@, '.');
            }
            filename.substring_char(0, dot)
        },
        None => filename,
    }
}

/// `s` with every `-` turned into `_`.
pub fn to_snake(s: &str) -> (r: String)
    ensures
        r@ == snake(s@),
{
    let mut r = String::new();
    for c in it: s.chars()
        invariant
            r@ == snake(it.seq().take(it.index())),
            it.seq() == s@,
    {
        let ghost done = r@;
        if c == '-' {
            r.push('_');
        } else {
            r.push(c);
        }
        proof {
            let k = it.index();
            assert(it.seq().take(k + 1) =~= it.seq().take(k).push(c));
            assert(snake(it.seq().take(k + 1)) =~= r@);
        }
    }
    assert(s@.take(s@.len() as int) =~= s@);
    r
}

/// A file of a fingerprint dir.
#[derive(Debug)]
pub enum UnitFile {
    /// An entry that could not be listed.
    Unreadable,
    /// A file, with what it holds where that was read.
    File { name: String, contents: Option<String> },
}

/// An entry of `.fingerprint/`.
#[derive(Debug)]
pub struct FingerprintDir {
    /// The name, with a replacement character for what is no Unicode.
    pub name: String,
    /// Whether the name is Unicode as it stands on disk.
    pub is_unicode: bool,
    pub is_dir: bool,
    /// When the unit was last invoked.
    pub invoked: Option<Timestamp>,
    /// The files of the dir, in listing order.
    pub files: Vec<UnitFile>,
}

impl FingerprintDir {
    /// The crate name and the hash of the unit, if the entry is one.
    pub open spec fn unit(self) -> Option<(Seq<char>, Seq<char>)> {
        if self.is_dir {
            unit_parts(self.name@)
        } else {
            None
        }
    }

    /// The crate of the unit.
    pub open spec fn crate_name(self) -> Seq<char> {
        (self.unit()->0).0
    }

    /// The hash of the unit.
    pub open spec fn hash(self) -> Seq<char> {
        (self.unit()->0).1
    }

    /// Whether the inventory takes the entry into account.
    pub open spec fn is_listed(self) -> bool {
        self.is_unicode && self.unit() is Some
    }

    /// Whether the unit was not invoked before `cutoff`. What cannot be measured
    /// counts as invoked now.
    pub open spec fn is_fresh(self, cutoff: Option<Timestamp>, now: Timestamp) -> bool {
        match (cutoff, self.invoked) {
            (None, _) => true,
            (Some(t), Some(invoked)) => t@ <= invoked@,
            (Some(t), None) => t@ <= now@,
        }
    }

    /// Whether the unit belongs to a live crate and is fresh.
    pub open spec fn is_current(
        self,
        live: LiveNames,
        cutoff: Option<Timestamp>,
        now: Timestamp,
    ) -> bool {
        self.is_listed() && live.crates.contains(self.crate_name()) && self.is_fresh(cutoff, now)
    }

    /// The crate name and the hash of the unit, if the entry is one.
    pub fn unit_name(&self) -> (r: Option<(&str, &str)>)
        ensures
            match r {
                Some((name, hash)) => self.unit() == Some((name@, hash@)),
                None => self.unit() is None,
            },
    {
        if self.is_dir {
            parse_unit_dirname(self.name.as_str())
        } else {
            None
        }
    }
}

/// The hashes of the first `n` entries, as far as `p` holds of them.
pub open spec fn hashes_where(dirs: Seq<FingerprintDir>, n: int, p: spec_fn(int) -> bool) -> Set<
    Seq<char>,
> {
    Set::new(|h: Seq<char>| exists|i: int| 0 <= i < n && #[trigger] p(i) && h == dirs[i].hash())
}

/// One more entry adds its hash if `p` holds of it.
pub proof fn lemma_hashes_step(dirs: Seq<FingerprintDir>, n: int, p: spec_fn(int) -> bool)
    requires
        0 <= n,
    ensures
        p(n) ==> hashes_where(dirs, n + 1, p) == hashes_where(dirs, n, p).insert(dirs[n].hash()),
        !p(n) ==> hashes_where(dirs, n + 1, p) == hashes_where(dirs, n, p),
        hashes_where(dirs, 0, p) == Set::<Seq<char>>::empty(),
{
    let a = hashes_where(dirs, n, p);
    let b = hashes_where(dirs, n + 1, p);
    assert forall|h: Seq<char>| p(n) implies (b.contains(h) <==> a.contains(h) || h
        == dirs[n].hash()) by {}
    if p(n) {
        assert(b =~= a.insert(dirs[n].hash()));
    } else {
        assert(b =~= a);
    }
    assert(hashes_where(dirs, 0, p) =~= Set::<Seq<char>>::empty());
}

/// What of a profile is in use and what is to go.
pub struct Inventory {
    /// 16-hex-char hashes whose fingerprint dir corresponds to a live crate
    /// AND (if an age cutoff is set) is newer than the cutoff. Anything in
    /// `deps/`, `build/`, etc. with a hash NOT in this set is safe to remove.
    pub live_hashes: NameSet,
    /// Fingerprint dirs marked for sweep, by their place in the listing —
    /// either because their crate isn't in the live set, or because the unit
    /// hasn't been touched since the cutoff.
    pub stale_fingerprints: Vec<usize>,
}

/// What an `Inventory` stands for.
#[verifier::ext_equal]
pub struct Stock {
    /// The hashes in use.
    pub live: Set<Seq<char>>,
    /// The entries of `.fingerprint/` that are to go.
    pub stale: Seq<usize>,
}

impl Default for Inventory {
    fn default() -> (r: Inventory)
        ensures
            r@ == (Stock { live: Set::empty(), stale: Seq::empty() }),
    {
        Inventory { live_hashes: NameSet::new(), stale_fingerprints: Vec::new() }
    }
}

impl View for Inventory {
    type V = Stock;

    open spec fn view(&self) -> Stock {
        Stock { live: self.live_hashes@, stale: self.stale_fingerprints@ }
    }
}

/// The inventory of a listing of `.fingerprint/`: current units are in use, the
/// other units go, and what is no unit is left alone.
pub open spec fn taken_stock(
    dirs: Seq<FingerprintDir>,
    live: LiveNames,
    cutoff: Option<Timestamp>,
    now: Timestamp,
) -> Stock {
    Stock {
        live: hashes_where(
            dirs,
            dirs.len() as int,
            |i: int| dirs[i].is_current(live, cutoff, now),
        ),
        stale: order::picks(
            dirs.len(),
            |i: int| dirs[i].is_listed() && !dirs[i].is_current(live, cutoff, now),
        ),
    }
}

impl Inventory {
    /// Build the inventory.
    ///
    /// * `cutoff = None` — strict default: a fingerprint is stale only if
    ///   its crate is gone from the live set.
    ///
    /// * `cutoff = Some(t)` — also mark a fingerprint stale if it was invoked
    ///   strictly before `t`. This targets orphaned per-unit configurations
    ///   (e.g. an old feature-flag build that cargo will never reuse).
    ///
    /// A unit whose time of invocation could not be read counts as invoked
    /// `now`, so that nothing is swept that cannot be measured.
    pub fn build(
        dirs: &Vec<FingerprintDir>,
        live: &LiveSet,
        cutoff: Option<Timestamp>,
        now: Timestamp,
    ) -> (r: Inventory)
        ensures
            r@ == taken_stock(dirs@, live@, cutoff, now),
    {
        let mut live_hashes = NameSet::new();
        let mut stale: Vec<usize> = Vec::new();
        let ghost current = |i: int| dirs@[i].is_current(live@, cutoff, now);
        let ghost outdated = |i: int|
            dirs@[i].is_listed() && !dirs@[i].is_current(live@, cutoff, now);
        proof {
            lemma_hashes_step(dirs@, 0, current);
        }
        let mut i: usize = 0;
        while i < dirs.len()
            invariant
                i <= dirs.len(),
                current == (|i: int| dirs@[i].is_current(live@, cutoff, now)),
                outdated == (|i: int|
                    dirs@[i].is_listed() && !dirs@[i].is_current(live@, cutoff, now)),
                live_hashes@ == hashes_where(dirs@, i as int, current),
                stale@ == order::picks(i as nat, outdated),
            decreases dirs.len() - i,
        {
            let dir = &dirs[i];
            proof {
                lemma_hashes_step(dirs@, i as int, current);
            }
            if dir.is_unicode {
                if let Some((crate_name, hash)) = dir.unit_name() {
                    let fresh = match cutoff {
                        None => true,
                        Some(t) => {
                            let invoked = match dir.invoked {
                                Some(invoked) => invoked,
                                None => now,
                            };
                            t.nanos <= invoked.nanos
                        },
                    };
                    assert(fresh == dir.is_fresh(cutoff, now));
                    if live.contains(crate_name) && fresh {
                        live_hashes.insert(hash.to_owned());
                    } else {
                        stale.push(i);
                    }
                }
            }
            i = i + 1;
        }
        Inventory { live_hashes, stale_fingerprints: stale }
    }
}

/// When a unit was last invoked: the time of its `invoked.timestamp`, or else
/// the time of the fingerprint dir.
pub fn invoked_mtime(stamp: Option<Timestamp>, dir: Option<Timestamp>) -> (r: Option<Timestamp>)
    ensures
        r == (if stamp is Some {
            stamp
        } else {
            dir
        }),
{
    match stamp {
        Some(t) => Some(t),
        None => dir,
    }
}

} // verus!
