//! What a sweep of one profile dir removes, and in what order.

use vstd::prelude::*;

use crate::inventory::{self, extract_deps_hash, parse_unit_dirname, Inventory, Stock};
use crate::listing::{CacheDir, Entry, EntryKind, ProfileListing, SessionEntry};
use crate::live_set::{self, LiveNames, LiveSet};
use crate::names::NameSet;
use crate::order::{self, rank, Ranking};
use crate::sweep::{self, name_matches_live, prunes_file, SweepOptions, SweepReport};
use crate::text::{chars_of, same_text};
use crate::timestamp::Timestamp;
use crate::units::{
    self, dedup_stale_units, promote_pruned_targets_to_stale, prune_set, prunes_name,
};

verus! {

broadcast use vstd::seq::group_seq_axioms;

/// One thing that a sweep removes. The numbers are places in the listing of the
/// profile dir.
#[derive(Debug, Clone, Copy, PartialEq, Eq, Structural)]
pub enum Removal {
    /// The incremental cache of a workspace member that was compiled against a
    /// superseded dependency. Does not count in the report.
    ZombieCache(usize),
    /// A file in `deps/`.
    DepsFile(usize),
    /// A dir in `build/`.
    BuildDir(usize),
    /// A crate's dir in `incremental/`.
    Cache(usize),
    /// A rustc session in a crate's dir in `incremental/`.
    Session { cache: usize, session: usize },
    /// The lock file of a session.
    SessionLock { cache: usize, session: usize },
    /// A file in the profile dir.
    TopLevelFile(usize),
    /// A file in `examples/`.
    ExampleFile(usize),
    /// A dir in `.fingerprint/`.
    Fingerprint(usize),
}

impl Removal {
    /// Whether a file goes, as opposed to a dir.
    pub open spec fn is_of_file(self) -> bool {
        self is DepsFile || self is SessionLock || self is TopLevelFile || self is ExampleFile
    }

    /// Whether a file goes, as opposed to a dir.
    pub fn takes_file(&self) -> (r: bool)
        ensures
            r == self.is_of_file(),
    {
        match self {
            Removal::DepsFile(_) => true,
            Removal::SessionLock { .. } => true,
            Removal::TopLevelFile(_) => true,
            Removal::ExampleFile(_) => true,
            _ => false,
        }
    }

    /// Whether the removal counts in the report.
    pub fn counts(&self) -> (r: bool)
        ensures
            r == !(self is ZombieCache),
    {
        match self {
            Removal::ZombieCache(_) => false,
            _ => true,
        }
    }
}

/// The report of one removal of `size` bytes. A file that was not there any more
/// has no size, and does not count.
pub open spec fn report_of(removal: Removal, size: Option<u64>) -> SweepReport {
    match size {
        Some(size) => if removal is ZombieCache {
            SweepReport { removed_files: 0, removed_dirs: 0, freed_bytes: 0 }
        } else if removal.is_of_file() {
            SweepReport::one_file(size)
        } else {
            SweepReport::one_dir(size)
        },
        None => SweepReport { removed_files: 0, removed_dirs: 0, freed_bytes: 0 },
    }
}

/// Adds a removal of `size` bytes to the report.
pub fn record(report: &mut SweepReport, removal: &Removal, size: Option<u64>)
    requires
        old(report).can_merge(report_of(*removal, size)),
    ensures
        *final(report) == old(report).merged(report_of(*removal, size)),
{
    if let Some(size) = size {
        if removal.counts() {
            if removal.takes_file() {
                report.count_file(size);
            } else {
                report.count_dir(size);
            }
        }
    }
}

/// Whether an entry of `deps/` carries a hash, and one that is not in use or the
/// name of a pruned target.
pub open spec fn is_stale_dep(e: Entry, hashes: Set<Seq<char>>, prunes: Set<Seq<char>>) -> bool {
    &&& e.kind == EntryKind::File
    &&& e.is_unicode
    &&& inventory::deps_hash(e.name@) is Some
    &&& !hashes.contains(inventory::deps_hash(e.name@)->0) || sweep::is_pruned_file(e.name@, prunes)
}

/// Whether an entry of `build/` carries a hash, and one that is not in use or the
/// name of a pruned target.
pub open spec fn is_stale_build(e: Entry, hashes: Set<Seq<char>>, prunes: Set<Seq<char>>) -> bool {
    &&& e.kind == EntryKind::Dir
    &&& inventory::unit_parts(e.name@) is Some
    &&& {
        let (name, hash) = inventory::unit_parts(e.name@)->0;
        !hashes.contains(hash) || units::is_prune_name(name, prunes)
    }
}

/// Whether a file of the profile dir is named for a pruned target.
pub open spec fn is_pruned_top_level(e: Entry, prunes: Set<Seq<char>>) -> bool {
    &&& e.kind == EntryKind::File
    &&& e.is_unicode
    &&& e.name@ != ".cargo-lock"@
    &&& sweep::is_pruned_file(e.name@, prunes)
}

/// Whether a file of the profile dir belongs to a pruned target, or to nothing
/// live.
pub open spec fn is_stale_top_level(
    e: Entry,
    hashes: Set<Seq<char>>,
    live: LiveNames,
    prunes: Set<Seq<char>>,
) -> bool {
    &&& e.kind == EntryKind::File
    &&& e.is_unicode
    &&& e.name@ != ".cargo-lock"@
    &&& sweep::is_pruned_file(e.name@, prunes) || !sweep::is_live_file(e.name@, hashes, live)
}

/// Whether a file of `examples/` is named for a pruned target.
pub open spec fn is_pruned_example(e: Entry, prunes: Set<Seq<char>>) -> bool {
    e.kind == EntryKind::File && e.is_unicode && sweep::is_pruned_file(e.name@, prunes)
}

/// Whether a file of `examples/` belongs to a pruned target, or to nothing live.
pub open spec fn is_stale_example(
    e: Entry,
    hashes: Set<Seq<char>>,
    live: LiveNames,
    prunes: Set<Seq<char>>,
) -> bool {
    &&& e.kind == EntryKind::File
    &&& e.is_unicode
    &&& sweep::is_pruned_file(e.name@, prunes) || !sweep::is_live_file(e.name@, hashes, live)
}

/// Whether an incremental cache is that of a pruned target.
pub open spec fn is_pruned_cache(c: CacheDir, prunes: Set<Seq<char>>) -> bool {
    c.cached_crate() matches Some(name) && units::is_prune_name(name, prunes)
}

/// Whether a crate's incremental cache goes as a whole.
pub open spec fn is_stale_cache(crate_name: Seq<char>, live: LiveNames, prunes: Set<Seq<char>>) -> bool {
    units::is_prune_name(crate_name, prunes) || (!live_set::snake_all(live.crates).contains(
        crate_name,
    ) && crate_name != live_set::build_script_name())
}

/// Whether an entry of a crate's incremental cache is a rustc session.
pub open spec fn is_session(e: SessionEntry) -> bool {
    e.is_dir && e.name@.len() >= 2 && e.name@[0] == 's' && e.name@[1] == '-'
}

/// Whether the entry `a` is newer than the entry `b`; entries of the same age
/// are told apart by their places.
pub open spec fn not_older(sessions: Seq<SessionEntry>, a: usize, b: usize) -> bool {
    let x = sessions[a as int].modified@;
    let y = sessions[b as int].modified@;
    x > y || (x == y && a <= b)
}

/// The sessions of a cache, newest first.
pub open spec fn newest_first(sessions: Seq<SessionEntry>) -> Seq<usize> {
    order::picks(sessions.len(), |j: int| is_session(sessions[j])).sort_by(
        |a: usize, b: usize| not_older(sessions, a, b),
    )
}

/// The sessions behind the `keep` newest ones, newest first.
pub open spec fn old_sessions(sessions: Seq<SessionEntry>, keep: usize) -> Seq<usize> {
    let all = newest_first(sessions);
    if all.len() <= keep {
        Seq::empty()
    } else {
        all.skip(keep as int)
    }
}

/// The removal of the given sessions of a cache, each followed by its lock file.
pub open spec fn session_removals(cache: CacheDir, at: usize, gone: Seq<usize>) -> Seq<Removal>
    decreases gone.len(),
{
    if gone.len() == 0 {
        Seq::empty()
    } else {
        let session = gone.last();
        let dir = session_removals(cache, at, gone.drop_last()).push(
            Removal::Session { cache: at, session },
        );
        if cache.sessions@[session as int].has_lock {
            dir.push(Removal::SessionLock { cache: at, session })
        } else {
            dir
        }
    }
}

/// What the sweep removes of one entry of `incremental/`.
pub open spec fn cache_removals(
    cache: CacheDir,
    at: usize,
    live: LiveNames,
    prunes: Set<Seq<char>>,
    keep: usize,
) -> Seq<Removal> {
    match cache.cached_crate() {
        None => Seq::empty(),
        Some(crate_name) => if is_stale_cache(crate_name, live, prunes) {
            seq![Removal::Cache(at)]
        } else {
            session_removals(cache, at, old_sessions(cache.sessions@, keep))
        },
    }
}

/// What the sweep removes of the first `n` entries of `incremental/`, of which
/// those at the places `missing` are not there any more.
pub open spec fn incremental_removals(
    caches: Seq<CacheDir>,
    n: nat,
    missing: Seq<usize>,
    live: LiveNames,
    prunes: Set<Seq<char>>,
    keep: usize,
) -> Seq<Removal>
    decreases n,
{
    if n == 0 {
        Seq::empty()
    } else {
        let at = (n - 1) as usize;
        let before = incremental_removals(caches, (n - 1) as nat, missing, live, prunes, keep);
        if missing.contains(at) {
            before
        } else {
            before + cache_removals(caches[n - 1], at, live, prunes, keep)
        }
    }
}

/// The inventory that a sweep goes by.
pub open spec fn settled_stock(
    profile: ProfileListing,
    live: LiveNames,
    opts: SweepOptions,
    now: Timestamp,
) -> Stock {
    let dirs = profile.fingerprints@;
    let stock = inventory::taken_stock(dirs, live, opts.max_age_cutoff, now);
    units::without_pruned(
        dirs,
        units::prune_names(opts.prune_targets@),
        units::without_superseded(dirs, live, stock),
    )
}

/// The incremental caches that go with superseded dependencies.
pub open spec fn zombie_caches(
    profile: ProfileListing,
    live: LiveNames,
    opts: SweepOptions,
    now: Timestamp,
) -> Seq<usize> {
    let dirs = profile.fingerprints@;
    units::purged_caches(
        dirs,
        profile.incremental@,
        live,
        inventory::taken_stock(dirs, live, opts.max_age_cutoff, now),
    )
}

/// The stale files of `deps/`.
pub open spec fn stale_deps(
    profile: ProfileListing,
    hashes: Set<Seq<char>>,
    prunes: Set<Seq<char>>,
) -> Seq<usize> {
    order::picks(profile.deps@.len(), |i: int| is_stale_dep(profile.deps@[i], hashes, prunes))
}

/// The stale dirs of `build/`.
pub open spec fn stale_builds(
    profile: ProfileListing,
    hashes: Set<Seq<char>>,
    prunes: Set<Seq<char>>,
) -> Seq<usize> {
    order::picks(profile.build@.len(), |i: int| is_stale_build(profile.build@[i], hashes, prunes))
}

/// The stale files of the profile dir.
pub open spec fn stale_top_level(
    profile: ProfileListing,
    hashes: Set<Seq<char>>,
    live: LiveNames,
    prunes: Set<Seq<char>>,
) -> Seq<usize> {
    order::picks(
        profile.top_level@.len(),
        |i: int| is_stale_top_level(profile.top_level@[i], hashes, live, prunes),
    )
}

/// The stale files of `examples/`.
pub open spec fn stale_examples(
    profile: ProfileListing,
    hashes: Set<Seq<char>>,
    live: LiveNames,
    prunes: Set<Seq<char>>,
) -> Seq<usize> {
    order::picks(
        profile.examples@.len(),
        |i: int| is_stale_example(profile.examples@[i], hashes, live, prunes),
    )
}

/// What the sweep of a profile dir removes, in order.
pub open spec fn profile_removals(
    profile: ProfileListing,
    live: LiveNames,
    opts: SweepOptions,
    now: Timestamp,
) -> Seq<Removal> {
    let stock = settled_stock(profile, live, opts, now);
    let prunes = units::prune_names(opts.prune_targets@);
    let zombies = zombie_caches(profile, live, opts, now);
    zombies.map_values(|i: usize| Removal::ZombieCache(i)) + stale_deps(
        profile,
        stock.live,
        prunes,
    ).map_values(|i: usize| Removal::DepsFile(i)) + stale_builds(
        profile,
        stock.live,
        prunes,
    ).map_values(|i: usize| Removal::BuildDir(i)) + incremental_removals(
        profile.incremental@,
        profile.incremental@.len(),
        zombies,
        live,
        prunes,
        opts.keep_sessions,
    ) + stale_top_level(profile, stock.live, live, prunes).map_values(
        |i: usize| Removal::TopLevelFile(i),
    ) + stale_examples(profile, stock.live, live, prunes).map_values(
        |i: usize| Removal::ExampleFile(i),
    ) + stock.stale.map_values(|i: usize| Removal::Fingerprint(i))
}

/// The incremental caches that the sweep leaves. It looks into these alone, for
/// old sessions.
pub open spec fn caches_left(
    profile: ProfileListing,
    live: LiveNames,
    opts: SweepOptions,
    now: Timestamp,
) -> Seq<usize> {
    let prunes = units::prune_names(opts.prune_targets@);
    let zombies = zombie_caches(profile, live, opts, now);
    order::picks(
        profile.incremental@.len(),
        |i: int|
            !zombies.contains(i as usize) && (profile.incremental@[i].cached_crate() matches Some(
                name,
            ) && !is_stale_cache(name, live, prunes)),
    )
}

/// The hashes that no unit of a pruned target has.
pub open spec fn unpruned_hashes(profile: ProfileListing, prunes: Set<Seq<char>>) -> Set<Seq<char>> {
    Set::new(|h: Seq<char>| !units::is_pruned_hash(profile.fingerprints@, prunes, h))
}

/// The incremental caches of pruned targets.
pub open spec fn pruned_caches(profile: ProfileListing, prunes: Set<Seq<char>>) -> Seq<usize> {
    order::picks(
        profile.incremental@.len(),
        |i: int| is_pruned_cache(profile.incremental@[i], prunes),
    )
}

/// The files of the profile dir that are named for pruned targets.
pub open spec fn pruned_top_level(profile: ProfileListing, prunes: Set<Seq<char>>) -> Seq<usize> {
    order::picks(
        profile.top_level@.len(),
        |i: int| is_pruned_top_level(profile.top_level@[i], prunes),
    )
}

/// The files of `examples/` that are named for pruned targets.
pub open spec fn pruned_examples(profile: ProfileListing, prunes: Set<Seq<char>>) -> Seq<usize> {
    order::picks(
        profile.examples@.len(),
        |i: int| is_pruned_example(profile.examples@[i], prunes),
    )
}

/// The fingerprint dirs of pruned targets.
pub open spec fn pruned_fingerprints(profile: ProfileListing, prunes: Set<Seq<char>>) -> Seq<usize> {
    order::picks(
        profile.fingerprints@.len(),
        |i: int| units::is_pruned(profile.fingerprints@[i], prunes),
    )
}

/// What goes of a profile dir that the regular sweep does not cover: the units of
/// pruned targets, what carries their hashes in `deps/` and `build/`, and what is
/// named for the targets.
pub open spec fn pruned_removals(profile: ProfileListing, opts: SweepOptions) -> Seq<Removal> {
    let prunes = units::prune_names(opts.prune_targets@);
    let kept = unpruned_hashes(profile, prunes);
    stale_deps(profile, kept, prunes).map_values(|i: usize| Removal::DepsFile(i)) + stale_builds(
        profile,
        kept,
        prunes,
    ).map_values(|i: usize| Removal::BuildDir(i)) + pruned_caches(profile, prunes).map_values(
        |i: usize| Removal::Cache(i),
    ) + pruned_top_level(profile, prunes).map_values(|i: usize| Removal::TopLevelFile(i))
        + pruned_examples(profile, prunes).map_values(|i: usize| Removal::ExampleFile(i))
        + pruned_fingerprints(profile, prunes).map_values(|i: usize| Removal::Fingerprint(i))
}

/// A set of hashes, given by its members or by what is not in it.
struct Hashes<'a> {
    names: &'a NameSet,
    are_members: bool,
}

impl<'a> View for Hashes<'a> {
    type V = Set<Seq<char>>;

    closed spec fn view(&self) -> Set<Seq<char>> {
        Set::new(|h: Seq<char>| self.names@.contains(h) == self.are_members)
    }
}

impl<'a> Hashes<'a> {
    /// Whether `hash` is in the set.
    fn contains(&self, hash: &str) -> (r: bool)
        ensures
            r == self@.contains(hash@),
    {
        self.names.contains(hash) == self.are_members
    }
}

/// The order of sessions by age.
struct ByAge<'a> {
    sessions: &'a Vec<SessionEntry>,
}

impl<'a> Ranking for ByAge<'a> {
    closed spec fn covers(&self, i: usize) -> bool {
        i < self.sessions@.len()
    }

    closed spec fn not_after(&self, a: usize, b: usize) -> bool {
        not_older(self.sessions@, a, b)
    }

    proof fn is_total(&self) {
    }

    fn ranks(&self, a: usize, b: usize) -> (r: bool) {
        let x = self.sessions[a].modified;
        let y = self.sessions[b].modified;
        x.nanos > y.nanos || (x.nanos == y.nanos && a <= b)
    }
}

/// Adds the removal of all but the `keep` newest sessions of a crate's
/// incremental cache. Cargo only consults the most recent one.
fn prune_old_sessions(cache: &CacheDir, at: usize, keep: usize, out: &mut Vec<Removal>)
    ensures
        final(out)@ == old(out)@ + session_removals(
            *cache,
            at,
            old_sessions(cache.sessions@, keep),
        ),
{
    let ghost start = out@;
    let mut sessions: Vec<usize> = Vec::new();
    let ghost session = |j: int| is_session(cache.sessions@[j]);
    let mut j: usize = 0;
    while j < cache.sessions.len()
        invariant
            j <= cache.sessions.len(),
            session == (|j: int| is_session(cache.sessions@[j])),
            sessions@ == order::picks(j as nat, session),
        decreases cache.sessions.len() - j,
    {
        let entry = &cache.sessions[j];
        if entry.is_dir {
            let name = chars_of(entry.name.as_str());
            if name.len() >= 2 && name[0] == 's' && name[1] == '-' {
                sessions.push(j);
            }
        }
        j = j + 1;
    }
    proof {
        order::lemma_picks(cache.sessions@.len(), session);
    }
    let by_age = ByAge { sessions: &cache.sessions };
    let sorted = rank(&sessions, &by_age);
    let ghost gone = old_sessions(cache.sessions@, keep);
    proof {
        let f = |a: usize, b: usize| by_age.not_after(a, b);
        let g = |a: usize, b: usize| not_older(cache.sessions@, a, b);
        assert(f =~= g);
        by_age.is_total();
        order::lemma_sorted(sessions@, g);
        assert(sorted@ == newest_first(cache.sessions@));
        assert(start + session_removals(*cache, at, Seq::empty()) =~= start);
        assert forall|k: int| 0 <= k < sorted@.len() implies #[trigger] sorted@[k]
            < cache.sessions@.len() by {
            assert(sorted@.contains(sorted@[k]));
        }
    }
    if sorted.len() <= keep {
        return;
    }
    let mut k: usize = keep;
    assert(gone.take(0) =~= Seq::empty());
    while k < sorted.len()
        invariant
            keep <= k <= sorted.len(),
            gone == sorted@.skip(keep as int),
            forall|k: int| 0 <= k < sorted@.len() ==> #[trigger] sorted@[k] < cache.sessions@.len(),
            out@ == start + session_removals(*cache, at, gone.take(k - keep)),
        decreases sorted.len() - k,
    {
        let session = sorted[k];
        let ghost before = out@;
        out.push(Removal::Session { cache: at, session });
        // Also clean up the matching .lock file alongside the session dir.
        if cache.sessions[session].has_lock {
            out.push(Removal::SessionLock { cache: at, session });
        }
        proof {
            let next = gone.take(k - keep + 1);
            assert(next.drop_last() =~= gone.take(k - keep));
            assert(next.last() == session);
            assert(out@ =~= start + session_removals(*cache, at, next));
        }
        k = k + 1;
    }
    assert(gone.take(gone.len() as int) =~= gone);
}

/// Whether a crate's incremental cache goes as a whole. Explicit prune of a target
/// overrides everything else.
fn cache_goes(crate_name: &str, live: &LiveSet, prunes: &NameSet) -> (r: bool)
    ensures
        r == is_stale_cache(crate_name@, live@, prunes@),
{
    prunes_name(crate_name, prunes) || (!live.contains_snake(crate_name) && !same_text(
        crate_name,
        "build_script_build",
    ))
}

/// Adds the removals in `incremental/`, where the caches at the places `missing`
/// are not there any more.
fn sweep_incremental(
    caches: &Vec<CacheDir>,
    missing: &Vec<usize>,
    live: &LiveSet,
    prunes: &NameSet,
    keep: usize,
    out: &mut Vec<Removal>,
)
    ensures
        final(out)@ == old(out)@ + incremental_removals(
            caches@,
            caches@.len(),
            missing@,
            live@,
            prunes@,
            keep,
        ),
{
    let ghost start = out@;
    let mut i: usize = 0;
    assert(start + incremental_removals(caches@, 0, missing@, live@, prunes@, keep) =~= start);
    while i < caches.len()
        invariant
            i <= caches.len(),
            out@ == start + incremental_removals(
                caches@,
                i as nat,
                missing@,
                live@,
                prunes@,
                keep,
            ),
        decreases caches.len() - i,
    {
        let ghost before = out@;
        if !order::holds(missing, i) {
            let cache = &caches[i];
            if let Some(crate_name) = cache.crate_name() {
                if cache_goes(crate_name.as_str(), live, prunes) {
                    out.push(Removal::Cache(i));
                    assert(out@ =~= before + cache_removals(*cache, i, live@, prunes@, keep));
                } else {
                    prune_old_sessions(cache, i, keep, out);
                }
            } else {
                assert(out@ =~= before + cache_removals(*cache, i, live@, prunes@, keep));
            }
            assert(out@ =~= start + incremental_removals(
                caches@,
                (i + 1) as nat,
                missing@,
                live@,
                prunes@,
                keep,
            ));
        }
        i = i + 1;
    }
}

/// Adds the removals in `deps/`. Files without an extractable hash (extremely
/// rare in deps/) are left alone — better safe than sorry.
fn sweep_deps(
    profile: &ProfileListing,
    hashes: &Hashes,
    prunes: &NameSet,
    out: &mut Vec<Removal>,
)
    ensures
        final(out)@ == old(out)@ + stale_deps(*profile, hashes@, prunes@).map_values(
            |i: usize| Removal::DepsFile(i),
        ),
{
    let ghost start = out@;
    let ghost stale = |i: int| is_stale_dep(profile.deps@[i], hashes@, prunes@);
    let ghost wrap = |i: usize| Removal::DepsFile(i);
    let mut i: usize = 0;
    assert(start + order::picks(0, stale).map_values(wrap) =~= start);
    while i < profile.deps.len()
        invariant
            i <= profile.deps.len(),
            stale == (|i: int| is_stale_dep(profile.deps@[i], hashes@, prunes@)),
            wrap == (|i: usize| Removal::DepsFile(i)),
            out@ == start + order::picks(i as nat, stale).map_values(wrap),
        decreases profile.deps.len() - i,
    {
        let entry = &profile.deps[i];
        if entry.kind == EntryKind::File && entry.is_unicode {
            if let Some(hash) = extract_deps_hash(entry.name.as_str()) {
                if !hashes.contains(hash) || prunes_file(entry.name.as_str(), prunes) {
                    out.push(Removal::DepsFile(i));
                }
            }
        }
        assert(out@ =~= start + order::picks((i + 1) as nat, stale).map_values(wrap));
        i = i + 1;
    }
}

/// Adds the removals in `build/`.
fn sweep_build(
    profile: &ProfileListing,
    hashes: &Hashes,
    prunes: &NameSet,
    out: &mut Vec<Removal>,
)
    ensures
        final(out)@ == old(out)@ + stale_builds(*profile, hashes@, prunes@).map_values(
            |i: usize| Removal::BuildDir(i),
        ),
{
    let ghost start = out@;
    let ghost stale = |i: int| is_stale_build(profile.build@[i], hashes@, prunes@);
    let ghost wrap = |i: usize| Removal::BuildDir(i);
    let mut i: usize = 0;
    assert(start + order::picks(0, stale).map_values(wrap) =~= start);
    while i < profile.build.len()
        invariant
            i <= profile.build.len(),
            stale == (|i: int| is_stale_build(profile.build@[i], hashes@, prunes@)),
            wrap == (|i: usize| Removal::BuildDir(i)),
            out@ == start + order::picks(i as nat, stale).map_values(wrap),
        decreases profile.build.len() - i,
    {
        let entry = &profile.build[i];
        if entry.kind == EntryKind::Dir {
            if let Some((name, hash)) = parse_unit_dirname(entry.name.as_str()) {
                if !hashes.contains(hash) || prunes_name(name, prunes) {
                    out.push(Removal::BuildDir(i));
                }
            }
        }
        assert(out@ =~= start + order::picks((i + 1) as nat, stale).map_values(wrap));
        i = i + 1;
    }
}

/// Adds the removals of files directly in the profile dir. Those are workspace
/// bins/libs and their depinfo siblings: `myapp`, `myapp.d`, `libmyapp.rlib`,
/// etc. They are hardlinked into deps/ and we want to keep them iff their
/// underlying crate name is in the live set.
fn sweep_top_level(
    profile: &ProfileListing,
    inv: &Inventory,
    live: &LiveSet,
    prunes: &NameSet,
    out: &mut Vec<Removal>,
)
    ensures
        final(out)@ == old(out)@ + stale_top_level(
            *profile,
            inv@.live,
            live@,
            prunes@,
        ).map_values(|i: usize| Removal::TopLevelFile(i)),
{
    let ghost start = out@;
    let ghost stale = |i: int|
        is_stale_top_level(profile.top_level@[i], inv@.live, live@, prunes@);
    let ghost wrap = |i: usize| Removal::TopLevelFile(i);
    let mut i: usize = 0;
    assert(start + order::picks(0, stale).map_values(wrap) =~= start);
    while i < profile.top_level.len()
        invariant
            i <= profile.top_level.len(),
            stale == (|i: int|
                is_stale_top_level(profile.top_level@[i], inv@.live, live@, prunes@)),
            wrap == (|i: usize| Removal::TopLevelFile(i)),
            out@ == start + order::picks(i as nat, stale).map_values(wrap),
        decreases profile.top_level.len() - i,
    {
        let entry = &profile.top_level[i];
        if entry.kind == EntryKind::File && entry.is_unicode {
            let name = entry.name.as_str();
            if !same_text(name, ".cargo-lock") {
                if prunes_file(name, prunes) || !name_matches_live(name, inv, live) {
                    out.push(Removal::TopLevelFile(i));
                }
            }
        }
        assert(out@ =~= start + order::picks((i + 1) as nat, stale).map_values(wrap));
        i = i + 1;
    }
}

/// Adds the removals in `examples/`.
fn sweep_examples(
    profile: &ProfileListing,
    inv: &Inventory,
    live: &LiveSet,
    prunes: &NameSet,
    out: &mut Vec<Removal>,
)
    ensures
        final(out)@ == old(out)@ + stale_examples(
            *profile,
            inv@.live,
            live@,
            prunes@,
        ).map_values(|i: usize| Removal::ExampleFile(i)),
{
    let ghost start = out@;
    let ghost stale = |i: int| is_stale_example(profile.examples@[i], inv@.live, live@, prunes@);
    let ghost wrap = |i: usize| Removal::ExampleFile(i);
    let mut i: usize = 0;
    assert(start + order::picks(0, stale).map_values(wrap) =~= start);
    while i < profile.examples.len()
        invariant
            i <= profile.examples.len(),
            stale == (|i: int| is_stale_example(profile.examples@[i], inv@.live, live@, prunes@)),
            wrap == (|i: usize| Removal::ExampleFile(i)),
            out@ == start + order::picks(i as nat, stale).map_values(wrap),
        decreases profile.examples.len() - i,
    {
        let entry = &profile.examples[i];
        if entry.kind == EntryKind::File && entry.is_unicode {
            let name = entry.name.as_str();
            if prunes_file(name, prunes) || !name_matches_live(name, inv, live) {
                out.push(Removal::ExampleFile(i));
            }
        }
        assert(out@ =~= start + order::picks((i + 1) as nat, stale).map_values(wrap));
        i = i + 1;
    }
}

/// What the sweep of a profile dir removes, in order.
pub fn sweep_profile(
    profile: &ProfileListing,
    live: &LiveSet,
    opts: &SweepOptions,
    now: Timestamp,
) -> (r: Vec<Removal>)
    ensures
        r@ == profile_removals(*profile, live@, *opts, now),
{
    let dirs = &profile.fingerprints;
    let mut inv = Inventory::build(dirs, live, opts.max_age_cutoff, now);
    let mut out: Vec<Removal> = Vec::new();

    // Keep only one fingerprint of each unit. This removes stale remnants from
    // previous build configs and prevents ThinLTO symbol mismatches in split
    // opt-level setups.
    let zombies = dedup_stale_units(dirs, &profile.incremental, &mut inv, live);

    // Pruned targets' hashes become stale. This cascades through
    // deps/build/top-level because everything keys off the live hashes.
    promote_pruned_targets_to_stale(dirs, &mut inv, &opts.prune_targets);
    let prunes = prune_set(&opts.prune_targets);

    let ghost zombie = |i: usize| Removal::ZombieCache(i);
    let mut z: usize = 0;
    while z < zombies.len()
        invariant
            z <= zombies.len(),
            zombie == (|i: usize| Removal::ZombieCache(i)),
            out@ == zombies@.take(z as int).map_values(zombie),
        decreases zombies.len() - z,
    {
        out.push(Removal::ZombieCache(zombies[z]));
        z = z + 1;
    }
    assert(zombies@.take(zombies@.len() as int) =~= zombies@);

    let hashes = Hashes { names: &inv.live_hashes, are_members: true };
    assert(hashes@ =~= inv@.live);
    sweep_deps(profile, &hashes, &prunes, &mut out);
    sweep_build(profile, &hashes, &prunes, &mut out);
    sweep_incremental(&profile.incremental, &zombies, live, &prunes, opts.keep_sessions, &mut out);
    sweep_top_level(profile, &inv, live, &prunes, &mut out);
    sweep_examples(profile, &inv, live, &prunes, &mut out);

    // Stale fingerprint dirs are removed last so they remain available for
    // inspection until everything else is decided.
    let ghost start = out@;
    let ghost wrap = |i: usize| Removal::Fingerprint(i);
    let mut k: usize = 0;
    assert(start + inv@.stale.take(0).map_values(wrap) =~= start);
    while k < inv.stale_fingerprints.len()
        invariant
            k <= inv.stale_fingerprints.len(),
            wrap == (|i: usize| Removal::Fingerprint(i)),
            out@ == start + inv@.stale.take(k as int).map_values(wrap),
        decreases inv.stale_fingerprints.len() - k,
    {
        out.push(Removal::Fingerprint(inv.stale_fingerprints[k]));
        assert(out@ =~= start + inv@.stale.take(k + 1).map_values(wrap));
        k = k + 1;
    }
    assert(inv@.stale.take(inv@.stale.len() as int) =~= inv@.stale);
    out
}

/// The incremental caches that the sweep of a profile dir leaves, whatever their
/// sessions. Of the other caches no session needs to be listed.
pub fn kept_caches(
    profile: &ProfileListing,
    live: &LiveSet,
    opts: &SweepOptions,
    now: Timestamp,
) -> (r: Vec<usize>)
    ensures
        r@ == caches_left(*profile, live@, *opts, now),
{
    let dirs = &profile.fingerprints;
    let mut inv = Inventory::build(dirs, live, opts.max_age_cutoff, now);
    let zombies = dedup_stale_units(dirs, &profile.incremental, &mut inv, live);
    let prunes = prune_set(&opts.prune_targets);
    let ghost kept = |i: int|
        !zombies@.contains(i as usize) && (profile.incremental@[i].cached_crate() matches Some(name)
            && !is_stale_cache(name, live@, prunes@));
    let mut out: Vec<usize> = Vec::new();
    let mut i: usize = 0;
    while i < profile.incremental.len()
        invariant
            i <= profile.incremental.len(),
            kept == (|i: int|
                !zombies@.contains(i as usize) && (profile.incremental@[i].cached_crate() matches Some(
                    name,
                ) && !is_stale_cache(name, live@, prunes@))),
            out@ == order::picks(i as nat, kept),
        decreases profile.incremental.len() - i,
    {
        if !order::holds(&zombies, i) {
            if let Some(crate_name) = profile.incremental[i].crate_name() {
                if !cache_goes(crate_name.as_str(), live, &prunes) {
                    out.push(i);
                }
            }
        }
        i = i + 1;
    }
    out
}

/// The hashes of the units of pruned targets.
fn hashes_of_pruned(profile: &ProfileListing, prunes: &NameSet) -> (r: NameSet)
    ensures
        forall|h: Seq<char>| #[trigger]
            r@.contains(h) <==> units::is_pruned_hash(profile.fingerprints@, prunes@, h),
{
    let ghost dirs = profile.fingerprints@;
    let mut out = NameSet::new();
    let mut i: usize = 0;
    while i < profile.fingerprints.len()
        invariant
            i <= profile.fingerprints.len(),
            dirs == profile.fingerprints@,
            forall|h: Seq<char>| #[trigger]
                out@.contains(h) <==> exists|k: int|
                    0 <= k < i && #[trigger] units::is_pruned(dirs[k], prunes@) && dirs[k].hash()
                        == h,
        decreases profile.fingerprints.len() - i,
    {
        if let Some((name, hash)) = profile.fingerprints[i].unit_name() {
            if prunes_name(name, prunes) {
                assert(units::is_pruned(dirs[i as int], prunes@));
                out.insert(hash.to_owned());
            }
        }
        i = i + 1;
    }
    out
}

/// Adds the removal of the caches of pruned targets.
fn prune_caches(profile: &ProfileListing, prunes: &NameSet, out: &mut Vec<Removal>)
    ensures
        final(out)@ == old(out)@ + pruned_caches(*profile, prunes@).map_values(
            |i: usize| Removal::Cache(i),
        ),
{
    let ghost start = out@;
    let ghost goes = |i: int| is_pruned_cache(profile.incremental@[i], prunes@);
    let ghost wrap = |i: usize| Removal::Cache(i);
    let mut i: usize = 0;
    assert(start + order::picks(0, goes).map_values(wrap) =~= start);
    while i < profile.incremental.len()
        invariant
            i <= profile.incremental.len(),
            goes == (|i: int| is_pruned_cache(profile.incremental@[i], prunes@)),
            wrap == (|i: usize| Removal::Cache(i)),
            out@ == start + order::picks(i as nat, goes).map_values(wrap),
        decreases profile.incremental.len() - i,
    {
        if let Some(name) = profile.incremental[i].crate_name() {
            if prunes_name(name.as_str(), prunes) {
                out.push(Removal::Cache(i));
            }
        }
        assert(out@ =~= start + order::picks((i + 1) as nat, goes).map_values(wrap));
        i = i + 1;
    }
}

/// Adds the removal of the files of the profile dir that are named for pruned
/// targets.
fn prune_top_level(profile: &ProfileListing, prunes: &NameSet, out: &mut Vec<Removal>)
    ensures
        final(out)@ == old(out)@ + pruned_top_level(*profile, prunes@).map_values(
            |i: usize| Removal::TopLevelFile(i),
        ),
{
    let ghost start = out@;
    let ghost goes = |i: int| is_pruned_top_level(profile.top_level@[i], prunes@);
    let ghost wrap = |i: usize| Removal::TopLevelFile(i);
    let mut i: usize = 0;
    assert(start + order::picks(0, goes).map_values(wrap) =~= start);
    while i < profile.top_level.len()
        invariant
            i <= profile.top_level.len(),
            goes == (|i: int| is_pruned_top_level(profile.top_level@[i], prunes@)),
            wrap == (|i: usize| Removal::TopLevelFile(i)),
            out@ == start + order::picks(i as nat, goes).map_values(wrap),
        decreases profile.top_level.len() - i,
    {
        let entry = &profile.top_level[i];
        if entry.kind == EntryKind::File && entry.is_unicode {
            let name = entry.name.as_str();
            if !same_text(name, ".cargo-lock") && prunes_file(name, prunes) {
                out.push(Removal::TopLevelFile(i));
            }
        }
        assert(out@ =~= start + order::picks((i + 1) as nat, goes).map_values(wrap));
        i = i + 1;
    }
}

/// Adds the removal of the examples that are named for pruned targets.
fn prune_examples(profile: &ProfileListing, prunes: &NameSet, out: &mut Vec<Removal>)
    ensures
        final(out)@ == old(out)@ + pruned_examples(*profile, prunes@).map_values(
            |i: usize| Removal::ExampleFile(i),
        ),
{
    let ghost start = out@;
    let ghost goes = |i: int| is_pruned_example(profile.examples@[i], prunes@);
    let ghost wrap = |i: usize| Removal::ExampleFile(i);
    let mut i: usize = 0;
    assert(start + order::picks(0, goes).map_values(wrap) =~= start);
    while i < profile.examples.len()
        invariant
            i <= profile.examples.len(),
            goes == (|i: int| is_pruned_example(profile.examples@[i], prunes@)),
            wrap == (|i: usize| Removal::ExampleFile(i)),
            out@ == start + order::picks(i as nat, goes).map_values(wrap),
        decreases profile.examples.len() - i,
    {
        let entry = &profile.examples[i];
        if entry.kind == EntryKind::File && entry.is_unicode && prunes_file(
            entry.name.as_str(),
            prunes,
        ) {
            out.push(Removal::ExampleFile(i));
        }
        assert(out@ =~= start + order::picks((i + 1) as nat, goes).map_values(wrap));
        i = i + 1;
    }
}

/// Adds the removal of the fingerprint dirs of pruned targets.
fn prune_fingerprints(profile: &ProfileListing, prunes: &NameSet, out: &mut Vec<Removal>)
    ensures
        final(out)@ == old(out)@ + pruned_fingerprints(*profile, prunes@).map_values(
            |i: usize| Removal::Fingerprint(i),
        ),
{
    let ghost start = out@;
    let ghost goes = |i: int| units::is_pruned(profile.fingerprints@[i], prunes@);
    let ghost wrap = |i: usize| Removal::Fingerprint(i);
    let mut i: usize = 0;
    assert(start + order::picks(0, goes).map_values(wrap) =~= start);
    while i < profile.fingerprints.len()
        invariant
            i <= profile.fingerprints.len(),
            goes == (|i: int| units::is_pruned(profile.fingerprints@[i], prunes@)),
            wrap == (|i: usize| Removal::Fingerprint(i)),
            out@ == start + order::picks(i as nat, goes).map_values(wrap),
        decreases profile.fingerprints.len() - i,
    {
        if let Some((name, _)) = profile.fingerprints[i].unit_name() {
            if prunes_name(name, prunes) {
                out.push(Removal::Fingerprint(i));
            }
        }
        assert(out@ =~= start + order::picks((i + 1) as nat, goes).map_values(wrap));
        i = i + 1;
    }
}

/// What goes of a profile dir that the regular sweep does not cover: the pruned
/// targets, which are wiped across every profile dir.
pub fn prune_profile_targets(profile: &ProfileListing, opts: &SweepOptions) -> (r: Vec<Removal>)
    ensures
        r@ == pruned_removals(*profile, *opts),
{
    let prunes = prune_set(&opts.prune_targets);
    let pruned = hashes_of_pruned(profile, &prunes);
    let kept = Hashes { names: &pruned, are_members: false };
    assert(kept@ =~= unpruned_hashes(*profile, prunes@));
    let mut out: Vec<Removal> = Vec::new();
    sweep_deps(profile, &kept, &prunes, &mut out);
    sweep_build(profile, &kept, &prunes, &mut out);
    prune_caches(profile, &prunes, &mut out);
    prune_top_level(profile, &prunes, &mut out);
    prune_examples(profile, &prunes, &mut out);
    prune_fingerprints(profile, &prunes, &mut out);
    assert(out@ =~= pruned_removals(*profile, *opts));
    out
}

} // verus!
