//! What holds of sweeps as a whole.

use vstd::prelude::*;

use crate::inventory::{self, FingerprintDir, Stock};
use crate::listing::{CacheDir, Entry, EntryKind, ProfileListing, SessionEntry};
use crate::live_set::{self, LiveNames};
use crate::name_laws;
use crate::order;
use crate::plan::{self, Removal};
use crate::sweep::{self, ProfileDir, SweepOptions};
use crate::target_dir::{self, TargetEntry};
use crate::text;
use crate::timestamp::Timestamp;
use crate::unit_laws;
use crate::units;

verus! {

broadcast use vstd::seq::group_seq_axioms;

/// Whether `places` are those of `n` entries that are not gone, each once.
pub open spec fn are_places_left(n: int, gone: spec_fn(int) -> bool, places: Seq<int>) -> bool {
    &&& places.no_duplicates()
    &&& forall|k: int|
        0 <= k < places.len() ==> 0 <= #[trigger] places[k] < n && !gone(places[k])
    &&& forall|p: int| 0 <= p < n && !#[trigger] gone(p) ==> places.contains(p)
}

/// Whether two listings show the same fingerprint dir: of one name and kind, last
/// invoked at one time, and with one unit recorded in it.
pub open spec fn is_same_dir(before: FingerprintDir, after: FingerprintDir) -> bool {
    &&& after.name@ == before.name@
    &&& after.is_unicode == before.is_unicode
    &&& after.is_dir == before.is_dir
    &&& after.invoked == before.invoked
    &&& units::unit_key(after.files@) == units::unit_key(before.files@)
}

/// Whether two listings show the same entry: of one name and kind.
pub open spec fn is_same_entry(before: Entry, after: Entry) -> bool {
    &&& after.name@ == before.name@
    &&& after.is_unicode == before.is_unicode
    &&& after.kind == before.kind
}

/// Whether `after` lists the fingerprint dirs of `before` that are not gone, in
/// the order of `places`.
pub open spec fn lists_dirs_at(
    before: Seq<FingerprintDir>,
    after: Seq<FingerprintDir>,
    gone: spec_fn(int) -> bool,
    places: Seq<int>,
) -> bool {
    &&& places.len() == after.len()
    &&& are_places_left(before.len() as int, gone, places)
    &&& forall|k: int|
        0 <= k < places.len() ==> is_same_dir(before[#[trigger] places[k]], after[k])
}

/// Whether `after` lists the entries of `before` that are not gone, in the order
/// of `places`.
pub open spec fn lists_entries_at(
    before: Seq<Entry>,
    after: Seq<Entry>,
    gone: spec_fn(int) -> bool,
    places: Seq<int>,
) -> bool {
    &&& places.len() == after.len()
    &&& are_places_left(before.len() as int, gone, places)
    &&& forall|k: int|
        0 <= k < places.len() ==> is_same_entry(before[#[trigger] places[k]], after[k])
}

/// Whether `after` lists the fingerprint dirs of `before` that are not gone, each
/// once and in any order.
pub open spec fn lists_dirs_left(
    before: Seq<FingerprintDir>,
    after: Seq<FingerprintDir>,
    gone: spec_fn(int) -> bool,
) -> bool {
    exists|places: Seq<int>| lists_dirs_at(before, after, gone, places)
}

/// Whether `after` lists the entries of `before` that are not gone, each once and
/// in any order.
pub open spec fn lists_entries_left(
    before: Seq<Entry>,
    after: Seq<Entry>,
    gone: spec_fn(int) -> bool,
) -> bool {
    exists|places: Seq<int>| lists_entries_at(before, after, gone, places)
}

/// The inventory of the first part of a sweep.
pub open spec fn taken(profile: ProfileListing, live: LiveNames, opts: SweepOptions, now: Timestamp) -> Stock {
    inventory::taken_stock(profile.fingerprints@, live, opts.max_age_cutoff, now)
}

/// Whether the entry `i` is superseded: demoted, or a zombie of a demoted
/// dependency.
pub open spec fn is_superseded(dirs: Seq<FingerprintDir>, live: LiveNames, stock: Stock, i: int) -> bool {
    ||| units::is_demoted(dirs, live, stock.live, i)
    ||| units::dependency_demoted(dirs, live, stock.live) && units::is_zombie(
        dirs,
        live,
        units::without_demoted(dirs, live, stock).live,
        i,
    )
}

/// Which entries of `.fingerprint/` a sweep takes.
pub proof fn lemma_stale(
    profile: ProfileListing,
    live: LiveNames,
    opts: SweepOptions,
    now: Timestamp,
    i: usize,
)
    ensures
        plan::settled_stock(profile, live, opts, now).stale.contains(i) <==> i
            < profile.fingerprints@.len() && {
            let d = profile.fingerprints@[i as int];
            ||| d.is_listed() && !d.is_current(live, opts.max_age_cutoff, now)
            ||| is_superseded(profile.fingerprints@, live, taken(profile, live, opts, now), i as int)
            ||| units::is_pruned(d, units::prune_names(opts.prune_targets@))
        },
{
    let dirs = profile.fingerprints@;
    let n = dirs.len();
    assert(n == profile.fingerprints.len());
    let prunes = units::prune_names(opts.prune_targets@);
    let s0 = taken(profile, live, opts, now);
    let s1 = units::without_demoted(dirs, live, s0);
    let s2 = units::without_superseded(dirs, live, s0);
    let outdated = |i: int|
        dirs[i].is_listed() && !dirs[i].is_current(live, opts.max_age_cutoff, now);
    let demoted = |i: int| units::is_demoted(dirs, live, s0.live, i);
    let zombie = |i: int| units::is_zombie(dirs, live, s1.live, i);
    let promoted = |i: int| units::is_promoted(dirs, prunes, s2, i);
    order::lemma_picks(n, outdated);
    order::lemma_picks(n, demoted);
    order::lemma_picks(n, zombie);
    order::lemma_picks(n, promoted);
    assert(s0.stale == order::picks(n, outdated));
    order::lemma_concat_contains(s0.stale, order::picks(n, demoted), i);
    order::lemma_concat_contains(s1.stale, order::picks(n, zombie), i);
    order::lemma_concat_contains(s2.stale, order::picks(n, promoted), i);
}

/// A hash in use is that of a current entry that stays.
pub proof fn lemma_in_use(
    profile: ProfileListing,
    live: LiveNames,
    opts: SweepOptions,
    now: Timestamp,
    h: Seq<char>,
) -> (i: int)
    requires
        plan::settled_stock(profile, live, opts, now).live.contains(h),
    ensures
        0 <= i < profile.fingerprints@.len(),
        profile.fingerprints@[i].is_current(live, opts.max_age_cutoff, now),
        profile.fingerprints@[i].hash() == h,
        !plan::settled_stock(profile, live, opts, now).stale.contains(i as usize),
{
    let dirs = profile.fingerprints@;
    let n = dirs.len();
    assert(n == profile.fingerprints.len());
    let prunes = units::prune_names(opts.prune_targets@);
    let s0 = taken(profile, live, opts, now);
    let s1 = units::without_demoted(dirs, live, s0);
    let s2 = units::without_superseded(dirs, live, s0);
    let current = |i: int| dirs[i].is_current(live, opts.max_age_cutoff, now);
    let demoted = |i: int| units::is_demoted(dirs, live, s0.live, i);
    let zombie = |i: int| units::is_zombie(dirs, live, s1.live, i);
    let pruned = |i: int| units::is_pruned(dirs[i], prunes);
    assert(s2.live.contains(h));
    assert(s1.live.contains(h));
    assert(s0.live.contains(h));
    assert(s0.live == inventory::hashes_where(dirs, n as int, current));
    let i = choose|i: int| 0 <= i < n && #[trigger] current(i) && h == dirs[i].hash();
    lemma_stale(profile, live, opts, now, i as usize);
    if demoted(i) {
        assert(inventory::hashes_where(dirs, n as int, demoted).contains(h));
    }
    if zombie(i) && units::dependency_demoted(dirs, live, s0.live) {
        assert(inventory::hashes_where(dirs, n as int, zombie).contains(h));
    }
    if pruned(i) {
        assert(inventory::hashes_where(dirs, n as int, pruned).contains(h));
    }
    i
}

/// Whether `after` is the session `before`.
pub open spec fn is_same_session(before: SessionEntry, after: SessionEntry) -> bool {
    after.name@ == before.name@ && after.is_dir == before.is_dir && after.modified
        == before.modified
}

/// Whether `after` is what the removals leave of the cache at the place `at`. What
/// is no session, such as a lock file, may be there or not.
pub open spec fn is_rest_of_cache(
    before: CacheDir,
    at: int,
    after: CacheDir,
    removals: Seq<Removal>,
) -> bool {
    &&& after.name@ == before.name@
    &&& after.is_dir == before.is_dir
    &&& exists|places: Seq<int>| #[trigger]
        are_rest_of_sessions(before.sessions@, at, after.sessions@, removals, places)
}

/// Whether `after` lists, in the order of `places`, entries of `before` that the
/// removals leave, among them all sessions.
pub open spec fn are_rest_of_sessions(
    before: Seq<SessionEntry>,
    at: int,
    after: Seq<SessionEntry>,
    removals: Seq<Removal>,
    places: Seq<int>,
) -> bool {
    &&& places.len() == after.len()
    &&& places.no_duplicates()
    &&& forall|k: int|
        0 <= k < places.len() ==> 0 <= #[trigger] places[k] < before.len() && is_same_session(
            before[places[k]],
            after[k],
        ) && !removals.contains(
            Removal::Session { cache: at as usize, session: places[k] as usize },
        )
    &&& forall|p: int|
        0 <= p < before.len() && plan::is_session(#[trigger] before[p]) && !removals.contains(
            Removal::Session { cache: at as usize, session: p as usize },
        ) ==> places.contains(p)
}

/// Whether the removals take the cache at the place `at`.
pub open spec fn is_cache_gone(removals: Seq<Removal>, at: int) -> bool {
    removals.contains(Removal::ZombieCache(at as usize)) || removals.contains(
        Removal::Cache(at as usize),
    )
}

/// Whether `after` lists, in the order of `places`, what the removals leave of
/// the caches.
pub open spec fn are_rest_of_caches(
    before: Seq<CacheDir>,
    after: Seq<CacheDir>,
    removals: Seq<Removal>,
    places: Seq<int>,
) -> bool {
    &&& places.len() == after.len()
    &&& places.no_duplicates()
    &&& forall|k: int|
        0 <= k < places.len() ==> 0 <= #[trigger] places[k] < before.len() && !is_cache_gone(
            removals,
            places[k],
        ) && is_rest_of_cache(before[places[k]], places[k], after[k], removals)
    &&& forall|p: int|
        0 <= p < before.len() && !#[trigger] is_cache_gone(removals, p) ==> places.contains(p)
}

/// Whether `after` is what the removals leave of the profile dir `before`, listed
/// in any order.
pub open spec fn is_left_over(
    before: ProfileListing,
    after: ProfileListing,
    removals: Seq<Removal>,
) -> bool {
    &&& lists_dirs_left(
        before.fingerprints@,
        after.fingerprints@,
        |p: int| removals.contains(Removal::Fingerprint(p as usize)),
    )
    &&& lists_entries_left(
        before.deps@,
        after.deps@,
        |p: int| removals.contains(Removal::DepsFile(p as usize)),
    )
    &&& lists_entries_left(
        before.build@,
        after.build@,
        |p: int| removals.contains(Removal::BuildDir(p as usize)),
    )
    &&& lists_entries_left(
        before.top_level@,
        after.top_level@,
        |p: int| removals.contains(Removal::TopLevelFile(p as usize)),
    )
    &&& lists_entries_left(
        before.examples@,
        after.examples@,
        |p: int| removals.contains(Removal::ExampleFile(p as usize)),
    )
    &&& exists|places: Seq<int>| #[trigger]
        are_rest_of_caches(before.incremental@, after.incremental@, removals, places)
}

/// A sequence of removals of one kind.
pub proof fn lemma_wrapped(s: Seq<usize>, f: spec_fn(usize) -> Removal, r: Removal)
    ensures
        s.map_values(f).contains(r) <==> exists|i: usize| #[trigger] s.contains(i) && f(i) == r,
{
    let t = s.map_values(f);
    if t.contains(r) {
        let k = choose|k: int| 0 <= k < t.len() && t[k] == r;
        assert(s.contains(s[k]));
    }
    if exists|i: usize| #[trigger] s.contains(i) && f(i) == r {
        let i = choose|i: usize| #[trigger] s.contains(i) && f(i) == r;
        let k = choose|k: int| 0 <= k < s.len() && s[k] == i;
        assert(t[k] == r);
    }
}

/// What the removal of sessions consists of.
pub proof fn lemma_session_removals(cache: CacheDir, at: usize, gone: Seq<usize>, r: Removal)
    ensures
        plan::session_removals(cache, at, gone).contains(r) <==> match r {
            Removal::Session { cache: c, session } => c == at && gone.contains(session),
            Removal::SessionLock { cache: c, session } => c == at && gone.contains(session)
                && cache.sessions@[session as int].has_lock,
            _ => false,
        },
    decreases gone.len(),
{
    if gone.len() > 0 {
        let init = gone.drop_last();
        let session = gone.last();
        let before = plan::session_removals(cache, at, init);
        let all = plan::session_removals(cache, at, gone);
        let dir = Removal::Session { cache: at, session };
        let lock = Removal::SessionLock { cache: at, session };
        lemma_session_removals(cache, at, init, r);
        assert(gone =~= init + seq![session]);
        if cache.sessions@[session as int].has_lock {
            assert(all =~= before + seq![dir, lock]);
            order::lemma_concat_contains(before, seq![dir, lock], r);
            assert(seq![dir, lock].contains(r) <==> r == dir || r == lock) by {
                assert(seq![dir, lock][0] == dir);
                assert(seq![dir, lock][1] == lock);
            }
        } else {
            assert(all =~= before + seq![dir]);
            order::lemma_concat_contains(before, seq![dir], r);
            assert(seq![dir].contains(r) <==> r == dir) by {
                assert(seq![dir][0] == dir);
            }
        }
        match r {
            Removal::Session { cache: _, session: s } => {
                order::lemma_concat_contains(init, seq![session], s);
                assert(seq![session].contains(s) <==> s == session) by {
                    assert(seq![session][0] == session);
                }
            },
            Removal::SessionLock { cache: _, session: s } => {
                order::lemma_concat_contains(init, seq![session], s);
                assert(seq![session].contains(s) <==> s == session) by {
                    assert(seq![session][0] == session);
                }
            },
            _ => {},
        }
    }
}

/// What the sweep of `incremental/` consists of.
pub proof fn lemma_incremental(
    caches: Seq<CacheDir>,
    n: nat,
    missing: Seq<usize>,
    live: LiveNames,
    prunes: Set<Seq<char>>,
    keep: usize,
    r: Removal,
)
    requires
        n <= caches.len() <= usize::MAX,
    ensures
        plan::incremental_removals(caches, n, missing, live, prunes, keep).contains(r)
            <==> exists|at: usize|
            at < n && !missing.contains(at) && #[trigger] plan::cache_removals(
                caches[at as int],
                at,
                live,
                prunes,
                keep,
            ).contains(r),
    decreases n,
{
    if n > 0 {
        let m = (n - 1) as nat;
        let at = m as usize;
        lemma_incremental(caches, m, missing, live, prunes, keep, r);
        let before = plan::incremental_removals(caches, m, missing, live, prunes, keep);
        let here = plan::cache_removals(caches[m as int], at, live, prunes, keep);
        if !missing.contains(at) {
            order::lemma_concat_contains(before, here, r);
        }
    }
}

/// The removals of one entry of `incremental/`.
pub proof fn lemma_cache(
    cache: CacheDir,
    at: usize,
    live: LiveNames,
    prunes: Set<Seq<char>>,
    keep: usize,
    r: Removal,
)
    ensures
        plan::cache_removals(cache, at, live, prunes, keep).contains(r) <==> cache.cached_crate()
            is Some && {
            let is_stale = plan::is_stale_cache(cache.cached_crate()->0, live, prunes);
            let gone = plan::old_sessions(cache.sessions@, keep);
            match r {
                Removal::Cache(c) => c == at && is_stale,
                Removal::Session { cache: c, session } => c == at && !is_stale && gone.contains(
                    session,
                ),
                Removal::SessionLock { cache: c, session } => c == at && !is_stale
                    && gone.contains(session) && cache.sessions@[session as int].has_lock,
                _ => false,
            }
        },
{
    if cache.cached_crate() is Some {
        let whole = Removal::Cache(at);
        assert(seq![whole].contains(r) <==> r == whole) by {
            assert(seq![whole][0] == whole);
        }
        lemma_session_removals(cache, at, plan::old_sessions(cache.sessions@, keep), r);
    }
}

/// What a sweep consists of.
pub proof fn lemma_removals(
    profile: ProfileListing,
    live: LiveNames,
    opts: SweepOptions,
    now: Timestamp,
    r: Removal,
)
    ensures
        plan::profile_removals(profile, live, opts, now).contains(r) <==> {
            let stock = plan::settled_stock(profile, live, opts, now);
            let prunes = units::prune_names(opts.prune_targets@);
            match r {
                Removal::ZombieCache(i) => plan::zombie_caches(profile, live, opts, now).contains(i),
                Removal::DepsFile(i) => plan::stale_deps(profile, stock.live, prunes).contains(i),
                Removal::BuildDir(i) => plan::stale_builds(profile, stock.live, prunes).contains(i),
                Removal::TopLevelFile(i) => plan::stale_top_level(
                    profile,
                    stock.live,
                    live,
                    prunes,
                ).contains(i),
                Removal::ExampleFile(i) => plan::stale_examples(
                    profile,
                    stock.live,
                    live,
                    prunes,
                ).contains(i),
                Removal::Fingerprint(i) => stock.stale.contains(i),
                _ => plan::incremental_removals(
                    profile.incremental@,
                    profile.incremental@.len(),
                    plan::zombie_caches(profile, live, opts, now),
                    live,
                    prunes,
                    opts.keep_sessions,
                ).contains(r),
            }
        },
{
    let stock = plan::settled_stock(profile, live, opts, now);
    let prunes = units::prune_names(opts.prune_targets@);
    let missing = plan::zombie_caches(profile, live, opts, now);
    assert(profile.incremental@.len() == profile.incremental.len());
    let z = plan::zombie_caches(profile, live, opts, now);
    let zombies = z.map_values(|i: usize| Removal::ZombieCache(i));
    let d = plan::stale_deps(profile, stock.live, prunes);
    let deps = d.map_values(|i: usize| Removal::DepsFile(i));
    let b = plan::stale_builds(profile, stock.live, prunes);
    let builds = b.map_values(|i: usize| Removal::BuildDir(i));
    let caches = plan::incremental_removals(
        profile.incremental@,
        profile.incremental@.len(),
        missing,
        live,
        prunes,
        opts.keep_sessions,
    );
    let t = plan::stale_top_level(profile, stock.live, live, prunes);
    let tops = t.map_values(|i: usize| Removal::TopLevelFile(i));
    let e = plan::stale_examples(profile, stock.live, live, prunes);
    let examples = e.map_values(|i: usize| Removal::ExampleFile(i));
    let f = stock.stale;
    let prints = f.map_values(|i: usize| Removal::Fingerprint(i));
    lemma_wrapped(z, |i: usize| Removal::ZombieCache(i), r);
    lemma_wrapped(d, |i: usize| Removal::DepsFile(i), r);
    lemma_wrapped(b, |i: usize| Removal::BuildDir(i), r);
    lemma_wrapped(t, |i: usize| Removal::TopLevelFile(i), r);
    lemma_wrapped(e, |i: usize| Removal::ExampleFile(i), r);
    lemma_wrapped(f, |i: usize| Removal::Fingerprint(i), r);
    lemma_incremental(
        profile.incremental@,
        profile.incremental@.len(),
        missing,
        live,
        prunes,
        opts.keep_sessions,
        r,
    );
    assert forall|at: usize| at < profile.incremental@.len() && #[trigger] plan::cache_removals(
        profile.incremental@[at as int],
        at,
        live,
        prunes,
        opts.keep_sessions,
    ).contains(r) implies r is Cache || r is Session || r is SessionLock by {
        lemma_cache(profile.incremental@[at as int], at, live, prunes, opts.keep_sessions, r);
    }
    order::lemma_concat_contains(zombies, deps, r);
    order::lemma_concat_contains(zombies + deps, builds, r);
    order::lemma_concat_contains(zombies + deps + builds, caches, r);
    order::lemma_concat_contains(zombies + deps + builds + caches, tops, r);
    order::lemma_concat_contains(zombies + deps + builds + caches + tops, examples, r);
    order::lemma_concat_contains(zombies + deps + builds + caches + tops + examples, prints, r);
}

/// Whether every unit that the inventory lists was not invoked before `cutoff`.
pub open spec fn is_all_fresh(
    profile: ProfileListing,
    cutoff: Option<Timestamp>,
    now: Timestamp,
) -> bool {
    forall|i: int|
        0 <= i < profile.fingerprints@.len() && (#[trigger] profile.fingerprints@[i]).is_listed()
            ==> profile.fingerprints@[i].is_fresh(cutoff, now)
}

/// Whether two lists hold the same texts.
pub open spec fn are_same_texts(a: Seq<String>, b: Seq<String>) -> bool {
    a.len() == b.len() && forall|i: int| 0 <= i < a.len() ==> #[trigger] a[i]@ == #[trigger] b[i]@
}

/// Targets that are written the same are pruned by the same names.
proof fn lemma_same_prunes(a: Seq<String>, b: Seq<String>)
    requires
        are_same_texts(a, b),
    ensures
        units::prune_names(a) == units::prune_names(b),
{
    let m = units::prune_names(a);
    let n = units::prune_names(b);
    assert forall|name: Seq<char>| m.contains(name) == n.contains(name) by {
        if m.contains(name) {
            let i = choose|i: int|
                0 <= i < a.len() && (name == #[trigger] a[i]@ || name == inventory::snake(a[i]@));
            assert(a[i]@ == b[i]@);
        }
        if n.contains(name) {
            let i = choose|i: int|
                0 <= i < b.len() && (name == #[trigger] b[i]@ || name == inventory::snake(b[i]@));
            assert(a[i]@ == b[i]@);
        }
    }
    assert(m =~= n);
}

/// Whether `later` are the options of another run that differs at most in the
/// cutoff.
pub open spec fn is_same_run(opts: SweepOptions, later: SweepOptions) -> bool {
    &&& !opts.dry_run
    &&& !later.dry_run
    &&& later.keep_sessions == opts.keep_sessions
    &&& are_same_texts(opts.prune_targets@, later.prune_targets@)
}

/// What a sweep leaves of `.fingerprint/` is all in use at a later sweep.
proof fn lemma_settles(
    before: ProfileListing,
    after: ProfileListing,
    live: LiveNames,
    opts: SweepOptions,
    later: SweepOptions,
    first: Timestamp,
    second: Timestamp,
)
    requires
        units::prune_names(later.prune_targets@) == units::prune_names(opts.prune_targets@),
        is_all_fresh(after, later.max_age_cutoff, second),
        lists_dirs_left(
            before.fingerprints@,
            after.fingerprints@,
            |p: int|
                plan::profile_removals(before, live, opts, first).contains(
                    Removal::Fingerprint(p as usize),
                ),
        ),
    ensures
        plan::settled_stock(after, live, later, second).stale == Seq::<usize>::empty(),
        plan::settled_stock(before, live, opts, first).live.subset_of(
            plan::settled_stock(after, live, later, second).live,
        ),
        plan::zombie_caches(after, live, later, second) == Seq::<usize>::empty(),
{
    let dirs = before.fingerprints@;
    let rest = after.fingerprints@;
    let cutoff = opts.max_age_cutoff;
    let next = later.max_age_cutoff;
    let prunes = units::prune_names(opts.prune_targets@);
    let removals = plan::profile_removals(before, live, opts, first);
    let gone = |p: int| removals.contains(Removal::Fingerprint(p as usize));
    let places = choose|places: Seq<int>| lists_dirs_at(dirs, rest, gone, places);
    let s0 = taken(before, live, opts, first);
    let t0 = taken(after, live, later, second);
    let t1 = units::without_demoted(rest, live, t0);
    let settled = plan::settled_stock(before, live, opts, first);
    assert(dirs.len() == before.fingerprints.len());
    assert(rest.len() == after.fingerprints.len());
    assert forall|k: int| 0 <= k < rest.len() implies {
        &&& 0 <= #[trigger] places[k] < dirs.len()
        &&& is_same_dir(dirs[places[k]], rest[k])
        &&& rest[k].is_listed() ==> rest[k].is_current(live, cutoff, first)
        &&& rest[k].is_listed() ==> rest[k].is_current(live, next, second)
        &&& !units::is_demoted(dirs, live, s0.live, places[k])
        &&& !units::is_pruned(rest[k], prunes)
    } by {
        lemma_removals(before, live, opts, first, Removal::Fingerprint(places[k] as usize));
        lemma_stale(before, live, opts, first, places[k] as usize);
        assert(!gone(places[k]));
    }
    // Nothing is out of date.
    let outdated = |i: int| rest[i].is_listed() && !rest[i].is_current(live, next, second);
    assert forall|i: int| 0 <= i < rest.len() implies !#[trigger] outdated(i) by {
        let p = places[i];
    }
    order::lemma_picks_none(rest.len(), outdated);
    assert(t0.stale == Seq::<usize>::empty());
    // A hash that is in use now was in use before.
    let current = |i: int| rest[i].is_current(live, next, second);
    let was_current = |i: int| dirs[i].is_current(live, cutoff, first);
    assert forall|h: Seq<char>| #[trigger] t0.live.contains(h) implies s0.live.contains(h) by {
        let k = choose|k: int| 0 <= k < rest.len() && #[trigger] current(k) && h == rest[k].hash();
        let p = places[k];
        assert(was_current(p));
    }
    // No two entries share a unit.
    let demoted = |i: int| units::is_demoted(rest, live, t0.live, i);
    assert forall|i: int| 0 <= i < rest.len() implies !#[trigger] demoted(i) by {
        if demoted(i) {
            let j = choose|j: int|
                0 <= j < rest.len() && j != i && #[trigger] units::is_candidate(rest[j], t0.live)
                    && units::same_unit(rest[i], rest[j]);
            let p = places[i];
            let q = places[j];
            assert(p != q);
            assert(units::is_candidate(dirs[p], s0.live));
            assert(units::is_candidate(dirs[q], s0.live));
            assert(units::is_newer(dirs, p, q) || units::is_newer(dirs, q, p));
            assert(units::is_demoted(dirs, live, s0.live, p) || units::is_demoted(
                dirs,
                live,
                s0.live,
                q,
            ));
        }
    }
    order::lemma_picks_none(rest.len(), demoted);
    let none = Set::<Seq<char>>::empty();
    assert(inventory::hashes_where(rest, rest.len() as int, demoted) =~= none);
    assert(t1.live =~= t0.live);
    assert(t1.stale =~= Seq::<usize>::empty());
    assert(!units::dependency_demoted(rest, live, t0.live)) by {
        if units::dependency_demoted(rest, live, t0.live) {
            let i = choose|i: int|
                0 <= i < rest.len() && #[trigger] units::is_demoted(rest, live, t0.live, i)
                    && !live.members.contains(rest[i].crate_name());
            assert(demoted(i));
        }
    }
    // Nothing is pruned.
    let pruned = |i: int| units::is_pruned(rest[i], prunes);
    assert forall|i: int| 0 <= i < rest.len() implies !#[trigger] pruned(i) by {
        let p = places[i];
    }
    let promoted = |i: int| units::is_promoted(rest, prunes, t1, i);
    assert forall|i: int| 0 <= i < rest.len() implies !#[trigger] promoted(i) by {
        assert(!pruned(i));
    }
    order::lemma_picks_none(rest.len(), promoted);
    assert(inventory::hashes_where(rest, rest.len() as int, pruned) =~= none);
    let end = plan::settled_stock(after, live, later, second);
    assert(end.live =~= t0.live);
    assert(end.stale =~= Seq::<usize>::empty());
    assert forall|h: Seq<char>| settled.live.contains(h) implies end.live.contains(h) by {
        let p = lemma_in_use(before, live, opts, first, h);
        lemma_removals(before, live, opts, first, Removal::Fingerprint(p as usize));
        assert(!gone(p));
        let k = choose|k: int| 0 <= k < places.len() && places[k] == p;
        assert(current(k));
    }
}

/// At most `keep` sessions of a cache are not among the old ones.
proof fn lemma_few_sessions(
    sessions: Seq<SessionEntry>,
    rest: Seq<SessionEntry>,
    keep: usize,
    places: Seq<int>,
)
    requires
        sessions.len() <= usize::MAX,
        rest.len() <= usize::MAX,
        places.len() == rest.len(),
        places.no_duplicates(),
        forall|k: int|
            0 <= k < places.len() ==> 0 <= #[trigger] places[k] < sessions.len()
                && is_same_session(sessions[places[k]], rest[k]) && !plan::old_sessions(
                sessions,
                keep,
            ).contains(places[k] as usize),
    ensures
        plan::old_sessions(rest, keep) == Seq::<usize>::empty(),
{
    let is_one = |j: int| plan::is_session(sessions[j]);
    let is_left = |j: int| plan::is_session(rest[j]);
    let all = order::picks(sessions.len(), is_one);
    let left = order::picks(rest.len(), is_left);
    order::lemma_picks(sessions.len(), is_one);
    order::lemma_picks(rest.len(), is_left);
    let le = |a: usize, b: usize| plan::not_older(sessions, a, b);
    let le_rest = |a: usize, b: usize| plan::not_older(rest, a, b);
    let sorted = plan::newest_first(sessions);
    order::lemma_sorted(all, le);
    order::lemma_sorted(left, le_rest);
    assert(plan::newest_first(rest).len() == left.len());
    let kept = if sorted.len() <= keep {
        sorted
    } else {
        sorted.take(keep as int)
    };
    // Each session that is left stands among the newest.
    let back = Seq::new(left.len(), |k: int| places[left[k] as int] as usize);
    assert forall|k: int| 0 <= k < back.len() implies kept.contains(#[trigger] back[k]) by {
        let p = places[left[k] as int];
        assert(is_left(left[k] as int));
        assert(is_one(p));
        assert(all.contains(p as usize));
        assert(sorted.contains(p as usize));
        let at = choose|at: int| 0 <= at < sorted.len() && sorted[at] == p as usize;
        if sorted.len() > keep && at >= keep {
            assert(sorted.skip(keep as int)[at - keep] == p as usize);
            assert(plan::old_sessions(sessions, keep).contains(p as usize));
        }
        assert(kept[at] == p as usize);
    }
    assert(back.no_duplicates()) by {
        assert forall|a: int, b: int| 0 <= a < back.len() && 0 <= b < back.len() && a != b implies
            back[a] != back[b] by {
            assert(left[a] != left[b]);
            assert(places[left[a] as int] != places[left[b] as int]);
        }
    }
    assert(back.len() <= kept.len()) by {
        back.unique_seq_to_set();
        kept.lemma_cardinality_of_set();
        assert(back.to_set().subset_of(kept.to_set()));
        vstd::set_lib::lemma_len_subset(back.to_set(), kept.to_set());
    }
}

/// **A sweep converges.** Once a sweep has removed what it decided on, a sweep of
/// what is left removes nothing, with the same live set, in whatever order it
/// lists the entries, and with whatever later cutoff, as long as no unit that was
/// left has fallen behind it.
pub proof fn later_sweep_removes_nothing(
    before: ProfileListing,
    after: ProfileListing,
    live: LiveNames,
    opts: SweepOptions,
    later: SweepOptions,
    first: Timestamp,
    second: Timestamp,
)
    requires
        is_same_run(opts, later),
        is_left_over(before, after, plan::profile_removals(before, live, opts, first)),
        is_all_fresh(after, later.max_age_cutoff, second),
    ensures
        plan::profile_removals(after, live, later, second) == Seq::<Removal>::empty(),
{
    let removals = plan::profile_removals(before, live, opts, first);
    let prunes = units::prune_names(opts.prune_targets@);
    let old_stock = plan::settled_stock(before, live, opts, first);
    let stock = plan::settled_stock(after, live, later, second);
    let fps_gone = |p: int| removals.contains(Removal::Fingerprint(p as usize));
    assert(fps_gone =~= (|p: int|
        plan::profile_removals(before, live, opts, first).contains(
            Removal::Fingerprint(p as usize),
        )));
    lemma_same_prunes(opts.prune_targets@, later.prune_targets@);
    lemma_settles(before, after, live, opts, later, first, second);
    assert(before.deps@.len() == before.deps.len());
    assert(before.build@.len() == before.build.len());
    assert(before.top_level@.len() == before.top_level.len());
    assert(before.examples@.len() == before.examples.len());
    assert(before.incremental@.len() == before.incremental.len());
    assert(after.incremental@.len() == after.incremental.len());

    // deps/
    let was_stale = |i: int| plan::is_stale_dep(before.deps@[i], old_stock.live, prunes);
    let is_stale = |i: int| plan::is_stale_dep(after.deps@[i], stock.live, prunes);
    order::lemma_picks(before.deps@.len(), was_stale);
    let gone = |p: int| removals.contains(Removal::DepsFile(p as usize));
    let places = choose|places: Seq<int>|
        lists_entries_at(before.deps@, after.deps@, gone, places);
    assert forall|i: int| 0 <= i < after.deps@.len() implies !#[trigger] is_stale(i) by {
        let p = places[i];
        assert(!gone(p));
        lemma_removals(before, live, opts, first, Removal::DepsFile(p as usize));
        assert(!was_stale(p));
    }
    order::lemma_picks_none(after.deps@.len(), is_stale);
    assert(plan::stale_deps(after, stock.live, prunes) == Seq::<usize>::empty());

    // build/
    let was_stale = |i: int| plan::is_stale_build(before.build@[i], old_stock.live, prunes);
    let is_stale = |i: int| plan::is_stale_build(after.build@[i], stock.live, prunes);
    order::lemma_picks(before.build@.len(), was_stale);
    let gone = |p: int| removals.contains(Removal::BuildDir(p as usize));
    let places = choose|places: Seq<int>|
        lists_entries_at(before.build@, after.build@, gone, places);
    assert forall|i: int| 0 <= i < after.build@.len() implies !#[trigger] is_stale(i) by {
        let p = places[i];
        assert(!gone(p));
        lemma_removals(before, live, opts, first, Removal::BuildDir(p as usize));
        assert(!was_stale(p));
    }
    order::lemma_picks_none(after.build@.len(), is_stale);
    assert(plan::stale_builds(after, stock.live, prunes) == Seq::<usize>::empty());

    // The profile dir.
    let was_stale = |i: int|
        plan::is_stale_top_level(before.top_level@[i], old_stock.live, live, prunes);
    let is_stale = |i: int| plan::is_stale_top_level(after.top_level@[i], stock.live, live, prunes);
    order::lemma_picks(before.top_level@.len(), was_stale);
    let gone = |p: int| removals.contains(Removal::TopLevelFile(p as usize));
    let places = choose|places: Seq<int>|
        lists_entries_at(before.top_level@, after.top_level@, gone, places);
    assert forall|i: int| 0 <= i < after.top_level@.len() implies !#[trigger] is_stale(i) by {
        let p = places[i];
        assert(!gone(p));
        lemma_removals(before, live, opts, first, Removal::TopLevelFile(p as usize));
        assert(!was_stale(p));
    }
    order::lemma_picks_none(after.top_level@.len(), is_stale);
    assert(plan::stale_top_level(after, stock.live, live, prunes) == Seq::<usize>::empty());

    // examples/
    let was_stale = |i: int|
        plan::is_stale_example(before.examples@[i], old_stock.live, live, prunes);
    let is_stale = |i: int| plan::is_stale_example(after.examples@[i], stock.live, live, prunes);
    order::lemma_picks(before.examples@.len(), was_stale);
    let gone = |p: int| removals.contains(Removal::ExampleFile(p as usize));
    let places = choose|places: Seq<int>|
        lists_entries_at(before.examples@, after.examples@, gone, places);
    assert forall|i: int| 0 <= i < after.examples@.len() implies !#[trigger] is_stale(i) by {
        let p = places[i];
        assert(!gone(p));
        lemma_removals(before, live, opts, first, Removal::ExampleFile(p as usize));
        assert(!was_stale(p));
    }
    order::lemma_picks_none(after.examples@.len(), is_stale);
    assert(plan::stale_examples(after, stock.live, live, prunes) == Seq::<usize>::empty());

    lemma_caches_settle(before, after, live, opts, first);
    assert(plan::profile_removals(after, live, later, second) =~= Seq::<Removal>::empty());
}

/// Whether the clock was not set back between two sweeps, or not so far that the
/// cutoff lies in the future.
pub open spec fn is_no_setback(opts: SweepOptions, first: Timestamp, second: Timestamp) -> bool {
    first@ <= second@ || (opts.max_age_cutoff matches Some(cutoff) ==> cutoff@ <= second@)
}

/// **A sweep is a fixed point.** Once a sweep has removed what it decided on, a
/// sweep of what is left, with the same live set and options, removes nothing, in
/// whatever order it lists the entries, and at whatever time it runs, unless the
/// clock was set back behind the cutoff in between.
pub proof fn second_sweep_removes_nothing(
    before: ProfileListing,
    after: ProfileListing,
    live: LiveNames,
    opts: SweepOptions,
    first: Timestamp,
    second: Timestamp,
)
    requires
        !opts.dry_run,
        is_no_setback(opts, first, second),
        is_left_over(before, after, plan::profile_removals(before, live, opts, first)),
    ensures
        plan::profile_removals(after, live, opts, second) == Seq::<Removal>::empty(),
{
    let removals = plan::profile_removals(before, live, opts, first);
    let gone = |p: int| removals.contains(Removal::Fingerprint(p as usize));
    let places = choose|places: Seq<int>|
        lists_dirs_at(before.fingerprints@, after.fingerprints@, gone, places);
    assert(before.fingerprints@.len() == before.fingerprints.len());
    assert forall|k: int|
        0 <= k < after.fingerprints@.len() && (
        #[trigger] after.fingerprints@[k]).is_listed() implies after.fingerprints@[k].is_fresh(
        opts.max_age_cutoff,
        second,
    ) by {
        let p = places[k];
        assert(!gone(p));
        lemma_removals(before, live, opts, first, Removal::Fingerprint(p as usize));
        lemma_stale(before, live, opts, first, p as usize);
    }
    later_sweep_removes_nothing(before, after, live, opts, opts, first, second);
}

/// What pruning a profile dir consists of.
pub proof fn lemma_pruned_removals(profile: ProfileListing, opts: SweepOptions, r: Removal)
    ensures
        plan::pruned_removals(profile, opts).contains(r) <==> {
            let prunes = units::prune_names(opts.prune_targets@);
            let kept = plan::unpruned_hashes(profile, prunes);
            match r {
                Removal::DepsFile(i) => i < profile.deps@.len() && plan::is_stale_dep(
                    profile.deps@[i as int],
                    kept,
                    prunes,
                ),
                Removal::BuildDir(i) => i < profile.build@.len() && plan::is_stale_build(
                    profile.build@[i as int],
                    kept,
                    prunes,
                ),
                Removal::Cache(i) => i < profile.incremental@.len() && plan::is_pruned_cache(
                    profile.incremental@[i as int],
                    prunes,
                ),
                Removal::TopLevelFile(i) => i < profile.top_level@.len()
                    && plan::is_pruned_top_level(profile.top_level@[i as int], prunes),
                Removal::ExampleFile(i) => i < profile.examples@.len() && plan::is_pruned_example(
                    profile.examples@[i as int],
                    prunes,
                ),
                Removal::Fingerprint(i) => i < profile.fingerprints@.len() && units::is_pruned(
                    profile.fingerprints@[i as int],
                    prunes,
                ),
                _ => false,
            }
        },
{
    let prunes = units::prune_names(opts.prune_targets@);
    let kept = plan::unpruned_hashes(profile, prunes);
    assert(profile.deps@.len() == profile.deps.len());
    assert(profile.build@.len() == profile.build.len());
    assert(profile.incremental@.len() == profile.incremental.len());
    assert(profile.top_level@.len() == profile.top_level.len());
    assert(profile.examples@.len() == profile.examples.len());
    assert(profile.fingerprints@.len() == profile.fingerprints.len());
    let in_deps = |i: int| plan::is_stale_dep(profile.deps@[i], kept, prunes);
    let in_build = |i: int| plan::is_stale_build(profile.build@[i], kept, prunes);
    let in_caches = |i: int| plan::is_pruned_cache(profile.incremental@[i], prunes);
    let in_tops = |i: int| plan::is_pruned_top_level(profile.top_level@[i], prunes);
    let in_examples = |i: int| plan::is_pruned_example(profile.examples@[i], prunes);
    let in_prints = |i: int| units::is_pruned(profile.fingerprints@[i], prunes);
    order::lemma_picks(profile.deps@.len(), in_deps);
    order::lemma_picks(profile.build@.len(), in_build);
    order::lemma_picks(profile.incremental@.len(), in_caches);
    order::lemma_picks(profile.top_level@.len(), in_tops);
    order::lemma_picks(profile.examples@.len(), in_examples);
    order::lemma_picks(profile.fingerprints@.len(), in_prints);
    let d = plan::stale_deps(profile, kept, prunes);
    let b = plan::stale_builds(profile, kept, prunes);
    let c = plan::pruned_caches(profile, prunes);
    let t = plan::pruned_top_level(profile, prunes);
    let e = plan::pruned_examples(profile, prunes);
    let f = plan::pruned_fingerprints(profile, prunes);
    lemma_wrapped(d, |i: usize| Removal::DepsFile(i), r);
    lemma_wrapped(b, |i: usize| Removal::BuildDir(i), r);
    lemma_wrapped(c, |i: usize| Removal::Cache(i), r);
    lemma_wrapped(t, |i: usize| Removal::TopLevelFile(i), r);
    lemma_wrapped(e, |i: usize| Removal::ExampleFile(i), r);
    lemma_wrapped(f, |i: usize| Removal::Fingerprint(i), r);
    let deps = d.map_values(|i: usize| Removal::DepsFile(i));
    let builds = b.map_values(|i: usize| Removal::BuildDir(i));
    let caches = c.map_values(|i: usize| Removal::Cache(i));
    let tops = t.map_values(|i: usize| Removal::TopLevelFile(i));
    let examples = e.map_values(|i: usize| Removal::ExampleFile(i));
    let prints = f.map_values(|i: usize| Removal::Fingerprint(i));
    order::lemma_concat_contains(deps, builds, r);
    order::lemma_concat_contains(deps + builds, caches, r);
    order::lemma_concat_contains(deps + builds + caches, tops, r);
    order::lemma_concat_contains(deps + builds + caches + tops, examples, r);
    order::lemma_concat_contains(deps + builds + caches + tops + examples, prints, r);
    match r {
        Removal::DepsFile(i) => {
            assert(d.contains(i) <==> i < profile.deps@.len() && in_deps(i as int));
        },
        Removal::BuildDir(i) => {
            assert(b.contains(i) <==> i < profile.build@.len() && in_build(i as int));
        },
        Removal::Cache(i) => {
            assert(c.contains(i) <==> i < profile.incremental@.len() && in_caches(i as int));
        },
        Removal::TopLevelFile(i) => {
            assert(t.contains(i) <==> i < profile.top_level@.len() && in_tops(i as int));
        },
        Removal::ExampleFile(i) => {
            assert(e.contains(i) <==> i < profile.examples@.len() && in_examples(i as int));
        },
        Removal::Fingerprint(i) => {
            assert(f.contains(i) <==> i < profile.fingerprints@.len() && in_prints(i as int));
        },
        _ => {},
    }
}

/// **Pruning other profiles is a fixed point.** Once the pruned targets are taken
/// out of a profile dir that the regular sweep does not cover, nothing of them is
/// left to take.
pub proof fn second_pruning_removes_nothing(
    before: ProfileListing,
    after: ProfileListing,
    opts: SweepOptions,
)
    requires
        is_left_over(before, after, plan::pruned_removals(before, opts)),
    ensures
        plan::pruned_removals(after, opts) == Seq::<Removal>::empty(),
{
    let removals = plan::pruned_removals(before, opts);
    let left = plan::pruned_removals(after, opts);
    let prunes = units::prune_names(opts.prune_targets@);
    let kept = plan::unpruned_hashes(after, prunes);
    assert(before.deps@.len() == before.deps.len());
    assert(before.build@.len() == before.build.len());
    assert(before.incremental@.len() == before.incremental.len());
    assert(before.top_level@.len() == before.top_level.len());
    assert(before.examples@.len() == before.examples.len());
    assert(before.fingerprints@.len() == before.fingerprints.len());
    let gone = |p: int| removals.contains(Removal::Fingerprint(p as usize));
    let places = choose|places: Seq<int>|
        lists_dirs_at(before.fingerprints@, after.fingerprints@, gone, places);
    assert forall|k: int| 0 <= k < after.fingerprints@.len() implies !units::is_pruned(
        #[trigger] after.fingerprints@[k],
        prunes,
    ) by {
        let p = places[k];
        assert(!gone(p));
        lemma_pruned_removals(before, opts, Removal::Fingerprint(p as usize));
    }
    assert forall|h: Seq<char>| #[trigger] kept.contains(h) by {
        if units::is_pruned_hash(after.fingerprints@, prunes, h) {
            let i = choose|i: int|
                0 <= i < after.fingerprints@.len() && #[trigger] units::is_pruned(
                    after.fingerprints@[i],
                    prunes,
                ) && after.fingerprints@[i].hash() == h;
            let d = after.fingerprints@[i];
        }
    }
    assert forall|r: Removal| !#[trigger] left.contains(r) by {
        lemma_pruned_removals(after, opts, r);
        match r {
            Removal::DepsFile(i) => {
                if i < after.deps@.len() {
                    let gone = |p: int| removals.contains(Removal::DepsFile(p as usize));
                    let places = choose|places: Seq<int>|
                        lists_entries_at(before.deps@, after.deps@, gone, places);
                    let p = places[i as int];
                    assert(!gone(p));
                    lemma_pruned_removals(before, opts, Removal::DepsFile(p as usize));
                }
            },
            Removal::BuildDir(i) => {
                if i < after.build@.len() {
                    let gone = |p: int| removals.contains(Removal::BuildDir(p as usize));
                    let places = choose|places: Seq<int>|
                        lists_entries_at(before.build@, after.build@, gone, places);
                    let p = places[i as int];
                    assert(!gone(p));
                    lemma_pruned_removals(before, opts, Removal::BuildDir(p as usize));
                }
            },
            Removal::Cache(i) => {
                if i < after.incremental@.len() {
                    let places = choose|places: Seq<int>| #[trigger]
                        are_rest_of_caches(before.incremental@, after.incremental@, removals, places);
                    let p = places[i as int];
                    assert(!is_cache_gone(removals, p));
                    lemma_pruned_removals(before, opts, Removal::Cache(p as usize));
                }
            },
            Removal::TopLevelFile(i) => {
                if i < after.top_level@.len() {
                    let gone = |p: int| removals.contains(Removal::TopLevelFile(p as usize));
                    let places = choose|places: Seq<int>|
                        lists_entries_at(before.top_level@, after.top_level@, gone, places);
                    let p = places[i as int];
                    assert(!gone(p));
                    lemma_pruned_removals(before, opts, Removal::TopLevelFile(p as usize));
                }
            },
            Removal::ExampleFile(i) => {
                if i < after.examples@.len() {
                    let gone = |p: int| removals.contains(Removal::ExampleFile(p as usize));
                    let places = choose|places: Seq<int>|
                        lists_entries_at(before.examples@, after.examples@, gone, places);
                    let p = places[i as int];
                    assert(!gone(p));
                    lemma_pruned_removals(before, opts, Removal::ExampleFile(p as usize));
                }
            },
            Removal::Fingerprint(i) => {
                if i < after.fingerprints@.len() {
                    let d = after.fingerprints@[i as int];
                }
            },
            _ => {},
        }
    }
    if left.len() > 0 {
        assert(left.contains(left[0]));
    }
}

/// **Pruning reaches every profile.** Whatever profile the regular sweep is
/// restricted to, what a pruned target has in another one goes: its fingerprint
/// dirs, what carries their hashes in `deps/` and `build/`, and what is named for
/// it.
pub proof fn pruning_reaches_every_profile(
    dir: ProfileDir,
    live: LiveNames,
    opts: SweepOptions,
    now: Timestamp,
    r: Removal,
)
    requires
        opts.prune_targets@.len() > 0,
        target_dir::is_profile(dir.entry),
        !sweep::is_wiped_name(dir.entry.name@, opts),
    ensures
        sweep::is_visited(dir.entry, opts),
        plan::pruned_removals(dir.listing, opts).contains(r) ==> {
            let removals = sweep::entry_removals(dir, live, opts, now);
            removals.contains(r) || (r matches Removal::Cache(i) && removals.contains(
                Removal::ZombieCache(i),
            ))
        },
{
    let profile = dir.listing;
    let prunes = units::prune_names(opts.prune_targets@);
    let stock = plan::settled_stock(profile, live, opts, now);
    lemma_pruned_removals(profile, opts, r);
    match r {
        Removal::DepsFile(i) => {
            lemma_pruned_hash(
                profile,
                live,
                opts,
                now,
                inventory::deps_hash(profile.deps@[i as int].name@)->0,
            );
            lemma_removals(profile, live, opts, now, r);
            assert(profile.deps@.len() == profile.deps.len());
            let stale = |p: int| plan::is_stale_dep(profile.deps@[p], stock.live, prunes);
            order::lemma_picks(profile.deps@.len(), stale);
            let b = stale(i as int);
        },
        Removal::BuildDir(i) => {
            lemma_pruned_hash(
                profile,
                live,
                opts,
                now,
                (inventory::unit_parts(profile.build@[i as int].name@)->0).1,
            );
            lemma_removals(profile, live, opts, now, r);
            assert(profile.build@.len() == profile.build.len());
            let stale = |p: int| plan::is_stale_build(profile.build@[p], stock.live, prunes);
            order::lemma_picks(profile.build@.len(), stale);
            let b = stale(i as int);
        },
        Removal::Cache(i) => {
            pruned_target_goes_everywhere(profile, live, opts, now, i as int);
        },
        Removal::TopLevelFile(i) => {
            pruned_target_goes_everywhere(profile, live, opts, now, i as int);
        },
        Removal::ExampleFile(i) => {
            pruned_target_goes_everywhere(profile, live, opts, now, i as int);
        },
        Removal::Fingerprint(i) => {
            pruned_target_goes_everywhere(profile, live, opts, now, i as int);
        },
        _ => {},
    }
}

/// The hash of a pruned unit is not in use once the sweep is settled.
proof fn lemma_pruned_hash(
    profile: ProfileListing,
    live: LiveNames,
    opts: SweepOptions,
    now: Timestamp,
    h: Seq<char>,
)
    ensures
        units::is_pruned_hash(
            profile.fingerprints@,
            units::prune_names(opts.prune_targets@),
            h,
        ) ==> !plan::settled_stock(profile, live, opts, now).live.contains(h),
{
    let dirs = profile.fingerprints@;
    let prunes = units::prune_names(opts.prune_targets@);
    if units::is_pruned_hash(dirs, prunes, h) {
        let pruned = |i: int| units::is_pruned(dirs[i], prunes);
        let k = choose|k: int|
            0 <= k < dirs.len() && #[trigger] units::is_pruned(dirs[k], prunes) && dirs[k].hash() == h;
        assert(pruned(k));
        assert(inventory::hashes_where(dirs, dirs.len() as int, pruned).contains(h));
    }
}

/// Whether `after` is an entry of the target dir `before` once a run has carried
/// out what it decided on there.
pub open spec fn is_entry_after(
    before: ProfileDir,
    after: ProfileDir,
    live: LiveNames,
    opts: SweepOptions,
    now: Timestamp,
) -> bool {
    &&& after.entry.name@ == before.entry.name@
    &&& after.entry.is_dir == before.entry.is_dir
    &&& after.entry.has_fingerprint == before.entry.has_fingerprint
    &&& sweep::is_visited(before.entry, opts) ==> is_left_over(
        before.listing,
        after.listing,
        sweep::entry_removals(before, live, opts, now),
    )
}

/// **A second run over a target dir removes nothing.** Once the profiles to be
/// wiped are gone and each profile dir that a run visits is swept, another run
/// with the same live set and options wipes nothing, and finds nothing to remove
/// in any profile dir. `is_dir` and `is_dir_after` tell of each profile to be
/// wiped whether there is such a dir, before the first run and after it.
pub proof fn second_run_removes_nothing(
    before: Seq<ProfileDir>,
    is_dir: Seq<bool>,
    after: Seq<ProfileDir>,
    is_dir_after: Seq<bool>,
    live: LiveNames,
    opts: SweepOptions,
    first: Timestamp,
    second: Timestamp,
)
    requires
        !opts.dry_run,
        is_no_setback(opts, first, second),
        is_dir.len() == opts.prune_profiles@.len(),
        is_dir.len() <= usize::MAX,
        is_dir_after.len() == is_dir.len(),
        forall|i: int|
            0 <= i < is_dir.len() && #[trigger] is_dir_after[i] ==> is_dir[i] && forall|w: usize|
                #[trigger] sweep::wiped_places(opts, is_dir).contains(w)
                    ==> sweep::spelled_profile(opts.prune_profiles@[w as int]@)
                    != sweep::spelled_profile(opts.prune_profiles@[i]@),
        forall|k: int|
            0 <= k < after.len() ==> exists|p: int|
                0 <= p < before.len() && is_entry_after(
                    #[trigger] before[p],
                    #[trigger] after[k],
                    live,
                    opts,
                    first,
                ),
    ensures
        sweep::wiped_places(opts, is_dir_after) == Seq::<usize>::empty(),
        forall|k: int|
            0 <= k < after.len() && sweep::is_visited((#[trigger] after[k]).entry, opts)
                ==> sweep::entry_removals(after[k], live, opts, second) == Seq::<Removal>::empty(),
{
    let names = opts.prune_profiles@;
    let wiped = |i: int| is_dir[i] && !sweep::is_spelled_before(names, i);
    let again = |i: int| is_dir_after[i] && !sweep::is_spelled_before(names, i);
    order::lemma_picks(is_dir.len(), wiped);
    assert forall|i: int| 0 <= i < is_dir_after.len() implies !#[trigger] again(i) by {
        if again(i) {
            assert(is_dir_after[i]);
            assert(wiped(i));
            assert(order::picks(is_dir.len(), wiped).contains(i as usize));
            assert(sweep::wiped_places(opts, is_dir).contains(i as usize));
        }
    }
    order::lemma_picks_none(is_dir_after.len(), again);
    assert forall|k: int|
        0 <= k < after.len() && sweep::is_visited((#[trigger] after[k]).entry, opts)
            implies sweep::entry_removals(after[k], live, opts, second) == Seq::<
        Removal,
    >::empty() by {
        let p = choose|p: int|
            0 <= p < before.len() && is_entry_after(
                #[trigger] before[p],
                after[k],
                live,
                opts,
                first,
            );
        if sweep::is_in_scope(after[k].entry, opts) {
            second_sweep_removes_nothing(
                before[p].listing,
                after[k].listing,
                live,
                opts,
                first,
                second,
            );
        } else {
            second_pruning_removes_nothing(before[p].listing, after[k].listing, opts);
        }
    }
}

/// **Profiles are wiped whatever else is asked for.** A profile to be wiped that
/// exists is wiped under its first mention, and no run visits a profile dir of its
/// name, however it is spelled, so that nothing of it is counted twice.
pub proof fn wiped_profiles_are_not_swept(
    opts: SweepOptions,
    is_dir: Seq<bool>,
    entry: TargetEntry,
    i: int,
)
    requires
        is_dir.len() == opts.prune_profiles@.len(),
        is_dir.len() <= usize::MAX,
        0 <= i < is_dir.len(),
        is_dir[i],
        !sweep::is_spelled_before(opts.prune_profiles@, i),
    ensures
        sweep::wiped_places(opts, is_dir).contains(i as usize),
        entry.name@ == sweep::spelled_profile(opts.prune_profiles@[i]@) ==> !sweep::is_visited(
            entry,
            opts,
        ),
{
    let names = opts.prune_profiles@;
    let wiped = |i: int| is_dir[i] && !sweep::is_spelled_before(names, i);
    order::lemma_picks(is_dir.len(), wiped);
    assert(wiped(i));
    assert(order::picks(is_dir.len(), wiped).contains(i as usize));
}

/// **A profile has more than one spelling.** A `./` in front of its name says
/// nothing, nor does a `/` behind it.
pub proof fn spellings_name_one_profile(name: Seq<char>)
    requires
        name.len() > 0,
        name != seq!['.'],
        !name.contains('/'),
    ensures
        sweep::spelled_profile(name) == name,
        sweep::spelled_profile(seq!['.', '/'] + name) == name,
        sweep::spelled_profile(name + seq!['/']) == name,
        sweep::spelled_profile(seq!['.', '/'] + name + seq!['/']) == name,
{
    let front = seq!['.', '/'] + name;
    let back = name + seq!['/'];
    let both = seq!['.', '/'] + name + seq!['/'];
    assert forall|i: int| 0 <= i < name.len() implies name[i] != '/' by {
        assert(name.contains(name[i]));
    }
    assert(front.skip(2) =~= name);
    assert(both.skip(2) =~= back);
    assert(back.drop_last() =~= name);
    assert(sweep::plain_front(name, true) == name);
    assert(sweep::plain_front(name, false) == name);
    assert(sweep::plain_back(name) == name);
    assert(sweep::plain_back(back) == name);
    assert(!(name.len() == 1 && name[0] == '.')) by {
        if name.len() == 1 && name[0] == '.' {
            assert(name =~= seq!['.']);
        }
    }
    assert(sweep::plain_front(back, false) == back);
    assert(sweep::plain_front(back, true) == back);
}

/// What a sweep leaves of `incremental/` has nothing more to remove.
proof fn lemma_caches_settle(
    before: ProfileListing,
    after: ProfileListing,
    live: LiveNames,
    opts: SweepOptions,
    first: Timestamp,
)
    requires
        !opts.dry_run,
        is_left_over(before, after, plan::profile_removals(before, live, opts, first)),
    ensures
        plan::incremental_removals(
            after.incremental@,
            after.incremental@.len(),
            Seq::empty(),
            live,
            units::prune_names(opts.prune_targets@),
            opts.keep_sessions,
        ) == Seq::<Removal>::empty(),
{
    let removals = plan::profile_removals(before, live, opts, first);
    let prunes = units::prune_names(opts.prune_targets@);
    let keep = opts.keep_sessions;
    let zombies = plan::zombie_caches(before, live, opts, first);
    let caches = before.incremental@;
    let rest = after.incremental@;
    assert(caches.len() == before.incremental.len());
    assert(rest.len() == after.incremental.len());
    let places = choose|places: Seq<int>| #[trigger]
        are_rest_of_caches(caches, rest, removals, places);
    assert forall|k: int| 0 <= k < rest.len() implies #[trigger] plan::cache_removals(
        rest[k],
        k as usize,
        live,
        prunes,
        keep,
    ) == Seq::<Removal>::empty() by {
        let p = places[k];
        let cache = caches[p];
        let at = p as usize;
        assert(!is_cache_gone(removals, p));
        lemma_removals(before, live, opts, first, Removal::ZombieCache(at));
        lemma_removals(before, live, opts, first, Removal::Cache(at));
        lemma_incremental(caches, caches.len(), zombies, live, prunes, keep, Removal::Cache(at));
        lemma_cache(cache, at, live, prunes, keep, Removal::Cache(at));
        assert(!plan::cache_removals(caches[at as int], at, live, prunes, keep).contains(
            Removal::Cache(at),
        ));
        assert(rest[k].cached_crate() == cache.cached_crate());
        if rest[k].cached_crate() is Some {
            assert(!plan::is_stale_cache(rest[k].cached_crate()->0, live, prunes));
            let kept = choose|kept: Seq<int>| #[trigger]
                are_rest_of_sessions(cache.sessions@, p, rest[k].sessions@, removals, kept);
            assert(cache.sessions@.len() == cache.sessions.len());
            assert(rest[k].sessions@.len() == rest[k].sessions.len());
            assert forall|j: int| 0 <= j < kept.len() implies !plan::old_sessions(
                cache.sessions@,
                keep,
            ).contains(#[trigger] kept[j] as usize) by {
                let r = Removal::Session { cache: at, session: kept[j] as usize };
                lemma_removals(before, live, opts, first, r);
                lemma_incremental(caches, caches.len(), zombies, live, prunes, keep, r);
                lemma_cache(cache, at, live, prunes, keep, r);
                assert(!plan::cache_removals(caches[at as int], at, live, prunes, keep).contains(r));
            }
            lemma_few_sessions(cache.sessions@, rest[k].sessions@, keep, kept);
        }
    }
    lemma_no_cache_removals(rest, rest.len(), live, prunes, keep);
}

/// Where no cache has anything to remove, the sweep of `incremental/` has not.
proof fn lemma_no_cache_removals(
    caches: Seq<CacheDir>,
    n: nat,
    live: LiveNames,
    prunes: Set<Seq<char>>,
    keep: usize,
)
    requires
        n <= caches.len() <= usize::MAX,
        forall|k: int|
            0 <= k < n ==> #[trigger] plan::cache_removals(
                caches[k],
                k as usize,
                live,
                prunes,
                keep,
            ) == Seq::<Removal>::empty(),
    ensures
        plan::incremental_removals(caches, n, Seq::empty(), live, prunes, keep) == Seq::<
            Removal,
        >::empty(),
    decreases n,
{
    if n > 0 {
        let m = (n - 1) as nat;
        lemma_no_cache_removals(caches, m, live, prunes, keep);
        assert(plan::cache_removals(caches[m as int], m as usize, live, prunes, keep) == Seq::<
            Removal,
        >::empty());
    }
}

/// Whether no two units have the same hash.
pub open spec fn has_distinct_hashes(dirs: Seq<FingerprintDir>) -> bool {
    forall|i: int, j: int|
        0 <= i < dirs.len() && 0 <= j < dirs.len() && i != j && (#[trigger] dirs[i]).unit() is Some
            && (#[trigger] dirs[j]).unit() is Some ==> dirs[i].hash() != dirs[j].hash()
}

/// **A unit that stays keeps its artifacts.** The hash of a fingerprint dir that
/// a sweep leaves is in use, so that the sweep leaves every file in `deps/` and
/// every dir in `build/` that carries it, unless it is named for a target that is
/// to be pruned. Cargo has nothing else to compile again.
pub proof fn surviving_unit_keeps_its_artifacts(
    profile: ProfileListing,
    live: LiveNames,
    opts: SweepOptions,
    now: Timestamp,
    i: int,
)
    requires
        has_distinct_hashes(profile.fingerprints@),
        0 <= i < profile.fingerprints@.len(),
        profile.fingerprints@[i].is_listed(),
        !plan::profile_removals(profile, live, opts, now).contains(
            Removal::Fingerprint(i as usize),
        ),
    ensures
        plan::settled_stock(profile, live, opts, now).live.contains(
            profile.fingerprints@[i].hash(),
        ),
        forall|p: int|
            0 <= p < profile.deps@.len() && inventory::deps_hash(
                (#[trigger] profile.deps@[p]).name@,
            ) == Some(profile.fingerprints@[i].hash()) && !sweep::is_pruned_file(
                profile.deps@[p].name@,
                units::prune_names(opts.prune_targets@),
            ) ==> !plan::profile_removals(
                profile,
                live,
                opts,
                now,
            ).contains(Removal::DepsFile(p as usize)),
        forall|p: int|
            0 <= p < profile.build@.len() && (inventory::unit_parts(
                (#[trigger] profile.build@[p]).name@,
            ) matches Some((name, h)) && h == profile.fingerprints@[i].hash()
                && !units::is_prune_name(name, units::prune_names(opts.prune_targets@)))
                ==> !plan::profile_removals(profile, live, opts, now).contains(
                Removal::BuildDir(p as usize),
            ),
{
    let dirs = profile.fingerprints@;
    let n = dirs.len();
    assert(n == profile.fingerprints.len());
    let h = dirs[i].hash();
    let prunes = units::prune_names(opts.prune_targets@);
    let s0 = taken(profile, live, opts, now);
    let s1 = units::without_demoted(dirs, live, s0);
    let stock = plan::settled_stock(profile, live, opts, now);
    let current = |i: int| dirs[i].is_current(live, opts.max_age_cutoff, now);
    let demoted = |i: int| units::is_demoted(dirs, live, s0.live, i);
    let zombie = |i: int| units::is_zombie(dirs, live, s1.live, i);
    let pruned = |i: int| units::is_pruned(dirs[i], prunes);
    lemma_removals(profile, live, opts, now, Removal::Fingerprint(i as usize));
    lemma_stale(profile, live, opts, now, i as usize);
    assert(current(i));
    assert(s0.live.contains(h));
    assert(!inventory::hashes_where(dirs, n as int, demoted).contains(h)) by {
        if inventory::hashes_where(dirs, n as int, demoted).contains(h) {
            let j = choose|j: int| 0 <= j < n && #[trigger] demoted(j) && h == dirs[j].hash();
            assert(dirs[j].unit() is Some);
            assert(j == i);
        }
    }
    assert(s1.live.contains(h));
    if units::dependency_demoted(dirs, live, s0.live) {
        assert(!inventory::hashes_where(dirs, n as int, zombie).contains(h)) by {
            if inventory::hashes_where(dirs, n as int, zombie).contains(h) {
                let j = choose|j: int| 0 <= j < n && #[trigger] zombie(j) && h == dirs[j].hash();
                assert(dirs[j].unit() is Some);
                assert(j == i);
            }
        }
    }
    assert(!inventory::hashes_where(dirs, n as int, pruned).contains(h)) by {
        if inventory::hashes_where(dirs, n as int, pruned).contains(h) {
            let j = choose|j: int| 0 <= j < n && #[trigger] pruned(j) && h == dirs[j].hash();
            assert(dirs[j].unit() is Some);
            assert(j == i);
        }
    }
    assert(stock.live.contains(h));
    lemma_hash_in_use_is_kept(profile, live, opts, now, h);
}

/// What carries a hash in use stays.
proof fn lemma_hash_in_use_is_kept(
    profile: ProfileListing,
    live: LiveNames,
    opts: SweepOptions,
    now: Timestamp,
    h: Seq<char>,
)
    requires
        plan::settled_stock(profile, live, opts, now).live.contains(h),
    ensures
        forall|p: int|
            0 <= p < profile.deps@.len() && inventory::deps_hash(
                (#[trigger] profile.deps@[p]).name@,
            ) == Some(h) && !sweep::is_pruned_file(
                profile.deps@[p].name@,
                units::prune_names(opts.prune_targets@),
            ) ==> !plan::profile_removals(profile, live, opts, now).contains(
                Removal::DepsFile(p as usize),
            ),
        forall|p: int|
            0 <= p < profile.build@.len() && (inventory::unit_parts(
                (#[trigger] profile.build@[p]).name@,
            ) matches Some((name, g)) && g == h && !units::is_prune_name(
                name,
                units::prune_names(opts.prune_targets@),
            )) ==> !plan::profile_removals(
                profile,
                live,
                opts,
                now,
            ).contains(Removal::BuildDir(p as usize)),
{
    let stock = plan::settled_stock(profile, live, opts, now);
    let prunes = units::prune_names(opts.prune_targets@);
    assert(profile.deps@.len() == profile.deps.len());
    assert(profile.build@.len() == profile.build.len());
    let stale_dep = |p: int| plan::is_stale_dep(profile.deps@[p], stock.live, prunes);
    let stale_build = |p: int| plan::is_stale_build(profile.build@[p], stock.live, prunes);
    order::lemma_picks(profile.deps@.len(), stale_dep);
    order::lemma_picks(profile.build@.len(), stale_build);
    assert forall|p: int|
        0 <= p < profile.deps@.len() && inventory::deps_hash(
            (#[trigger] profile.deps@[p]).name@,
        ) == Some(h) && !sweep::is_pruned_file(
            profile.deps@[p].name@,
            prunes,
        ) implies !plan::profile_removals(profile, live, opts, now).contains(
        Removal::DepsFile(p as usize),
    ) by {
        lemma_removals(profile, live, opts, now, Removal::DepsFile(p as usize));
        assert(!stale_dep(p));
    }
    assert forall|p: int|
        0 <= p < profile.build@.len() && (inventory::unit_parts(
            (#[trigger] profile.build@[p]).name@,
        ) matches Some((name, g)) && g == h && !units::is_prune_name(
            name,
            prunes,
        )) implies !plan::profile_removals(profile, live, opts, now).contains(
        Removal::BuildDir(p as usize),
    ) by {
        lemma_removals(profile, live, opts, now, Removal::BuildDir(p as usize));
        assert(!stale_build(p));
    }
}

/// **Orphans go.** A file in `deps/` goes, and a dir in `build/`, if it carries a
/// hash that no current fingerprint dir has.
pub proof fn orphans_go(
    profile: ProfileListing,
    live: LiveNames,
    opts: SweepOptions,
    now: Timestamp,
    h: Seq<char>,
    p: int,
)
    requires
        forall|i: int|
            0 <= i < profile.fingerprints@.len() && (
            #[trigger] profile.fingerprints@[i]).is_current(live, opts.max_age_cutoff, now)
                ==> profile.fingerprints@[i].hash() != h,
    ensures
        0 <= p < profile.deps@.len() && profile.deps@[p].kind == EntryKind::File
            && profile.deps@[p].is_unicode && inventory::deps_hash(profile.deps@[p].name@) == Some(h)
            ==> plan::profile_removals(profile, live, opts, now).contains(
            Removal::DepsFile(p as usize),
        ),
        0 <= p < profile.build@.len() && profile.build@[p].kind == EntryKind::Dir
            && (inventory::unit_parts(profile.build@[p].name@) matches Some((_, g)) && g == h)
            ==> plan::profile_removals(profile, live, opts, now).contains(
            Removal::BuildDir(p as usize),
        ),
{
    let stock = plan::settled_stock(profile, live, opts, now);
    let prunes = units::prune_names(opts.prune_targets@);
    if stock.live.contains(h) {
        let i = lemma_in_use(profile, live, opts, now, h);
        assert(profile.fingerprints@[i].hash() == h);
    }
    assert(profile.deps@.len() == profile.deps.len());
    assert(profile.build@.len() == profile.build.len());
    let stale_dep = |p: int| plan::is_stale_dep(profile.deps@[p], stock.live, prunes);
    let stale_build = |p: int| plan::is_stale_build(profile.build@[p], stock.live, prunes);
    order::lemma_picks(profile.deps@.len(), stale_dep);
    order::lemma_picks(profile.build@.len(), stale_build);
    lemma_removals(profile, live, opts, now, Removal::DepsFile(p as usize));
    lemma_removals(profile, live, opts, now, Removal::BuildDir(p as usize));
    if 0 <= p < profile.deps@.len() && profile.deps@[p].kind == EntryKind::File
        && profile.deps@[p].is_unicode && inventory::deps_hash(profile.deps@[p].name@) == Some(h) {
        assert(stale_dep(p));
        assert(plan::stale_deps(profile, stock.live, prunes).contains(p as usize));
    }
    if 0 <= p < profile.build@.len() && profile.build@[p].kind == EntryKind::Dir
        && (inventory::unit_parts(profile.build@[p].name@) matches Some((_, g)) && g == h) {
        assert(stale_build(p));
        assert(plan::stale_builds(profile, stock.live, prunes).contains(p as usize));
    }
}

/// **What is left belongs to a unit that is left.** A file in `deps/` that stays,
/// and a dir in `build/`, carries the hash of a current fingerprint dir that
/// stays, if it carries a hash.
pub proof fn what_is_left_has_its_unit(
    profile: ProfileListing,
    live: LiveNames,
    opts: SweepOptions,
    now: Timestamp,
    h: Seq<char>,
    p: int,
)
    requires
        ({
            let removals = plan::profile_removals(profile, live, opts, now);
            ||| 0 <= p < profile.deps@.len() && profile.deps@[p].kind == EntryKind::File
                && profile.deps@[p].is_unicode && inventory::deps_hash(profile.deps@[p].name@)
                == Some(h) && !removals.contains(Removal::DepsFile(p as usize))
            ||| 0 <= p < profile.build@.len() && profile.build@[p].kind == EntryKind::Dir && (
            inventory::unit_parts(profile.build@[p].name@) matches Some((_, g)) && g == h)
                && !removals.contains(Removal::BuildDir(p as usize))
        }),
    ensures
        exists|i: int|
            0 <= i < profile.fingerprints@.len() && (
            #[trigger] profile.fingerprints@[i]).is_current(live, opts.max_age_cutoff, now)
                && profile.fingerprints@[i].hash() == h && !plan::profile_removals(
                profile,
                live,
                opts,
                now,
            ).contains(Removal::Fingerprint(i as usize)),
{
    let stock = plan::settled_stock(profile, live, opts, now);
    let prunes = units::prune_names(opts.prune_targets@);
    assert(profile.deps@.len() == profile.deps.len());
    assert(profile.build@.len() == profile.build.len());
    let stale_dep = |p: int| plan::is_stale_dep(profile.deps@[p], stock.live, prunes);
    let stale_build = |p: int| plan::is_stale_build(profile.build@[p], stock.live, prunes);
    order::lemma_picks(profile.deps@.len(), stale_dep);
    order::lemma_picks(profile.build@.len(), stale_build);
    lemma_removals(profile, live, opts, now, Removal::DepsFile(p as usize));
    lemma_removals(profile, live, opts, now, Removal::BuildDir(p as usize));
    assert(stock.live.contains(h)) by {
        let a = stale_dep(p);
        let b = stale_build(p);
    }
    let i = lemma_in_use(profile, live, opts, now, h);
    lemma_removals(profile, live, opts, now, Removal::Fingerprint(i as usize));
    assert(profile.fingerprints@[i].hash() == h);
}

/// **What the sweep cannot tell, it leaves alone**: fingerprint dirs that are no
/// units, files in `deps/` and dirs in `build/` without a hash, cargo's lock
/// file, and in `deps/`, the profile dir and `examples/` whatever is no file.
pub proof fn leaves_alone_what_it_cannot_tell(
    profile: ProfileListing,
    live: LiveNames,
    opts: SweepOptions,
    now: Timestamp,
    p: int,
)
    ensures
        ({
            let removals = plan::profile_removals(profile, live, opts, now);
            &&& 0 <= p < profile.fingerprints@.len() && profile.fingerprints@[p].unit() is None
                ==> !removals.contains(Removal::Fingerprint(p as usize))
            &&& 0 <= p < profile.deps@.len() && (inventory::deps_hash(profile.deps@[p].name@) is None
                || profile.deps@[p].kind != EntryKind::File) ==> !removals.contains(
                Removal::DepsFile(p as usize),
            )
            &&& 0 <= p < profile.build@.len() && inventory::unit_parts(profile.build@[p].name@)
                is None ==> !removals.contains(Removal::BuildDir(p as usize))
            &&& 0 <= p < profile.top_level@.len() && (profile.top_level@[p].name@ == ".cargo-lock"@
                || profile.top_level@[p].kind != EntryKind::File)
                ==> !removals.contains(Removal::TopLevelFile(p as usize))
            &&& 0 <= p < profile.examples@.len() && profile.examples@[p].kind
                != EntryKind::File ==> !removals.contains(
                Removal::ExampleFile(p as usize),
            )
        }),
{
    let stock = plan::settled_stock(profile, live, opts, now);
    let prunes = units::prune_names(opts.prune_targets@);
    let at = p as usize;
    assert(profile.fingerprints@.len() == profile.fingerprints.len());
    assert(profile.deps@.len() == profile.deps.len());
    assert(profile.build@.len() == profile.build.len());
    assert(profile.top_level@.len() == profile.top_level.len());
    assert(profile.examples@.len() == profile.examples.len());
    lemma_removals(profile, live, opts, now, Removal::Fingerprint(at));
    lemma_removals(profile, live, opts, now, Removal::DepsFile(at));
    lemma_removals(profile, live, opts, now, Removal::BuildDir(at));
    lemma_removals(profile, live, opts, now, Removal::TopLevelFile(at));
    lemma_removals(profile, live, opts, now, Removal::ExampleFile(at));
    lemma_stale(profile, live, opts, now, at);
    order::lemma_picks(
        profile.deps@.len(),
        |p: int| plan::is_stale_dep(profile.deps@[p], stock.live, prunes),
    );
    order::lemma_picks(
        profile.build@.len(),
        |p: int| plan::is_stale_build(profile.build@[p], stock.live, prunes),
    );
    order::lemma_picks(
        profile.top_level@.len(),
        |p: int| plan::is_stale_top_level(profile.top_level@[p], stock.live, live, prunes),
    );
    order::lemma_picks(
        profile.examples@.len(),
        |p: int| plan::is_stale_example(profile.examples@[p], stock.live, live, prunes),
    );
}

/// Whether two sets of options differ at most in that the first is for a dry run,
/// and in how much is printed.
pub open spec fn is_dry_run_of(dry: SweepOptions, actual: SweepOptions) -> bool {
    &&& dry.dry_run
    &&& !actual.dry_run
    &&& dry.keep_sessions == actual.keep_sessions
    &&& match (dry.only_profile, actual.only_profile) {
        (Some(a), Some(b)) => a@ == b@,
        (None, None) => true,
        _ => false,
    }
    &&& dry.max_age_cutoff == actual.max_age_cutoff
    &&& are_same_texts(dry.prune_profiles@, actual.prune_profiles@)
    &&& are_same_texts(dry.prune_targets@, actual.prune_targets@)
}

/// **A dry run shows what a run removes**, no more and no less and in the same
/// order: of each profile dir, of the profile dirs that are visited, and of those
/// that are wiped as a whole.
pub proof fn dry_run_shows_what_a_run_removes(
    entries: Seq<TargetEntry>,
    is_dir: Seq<bool>,
    dir: ProfileDir,
    live: LiveNames,
    dry: SweepOptions,
    actual: SweepOptions,
    now: Timestamp,
)
    requires
        is_dry_run_of(dry, actual),
        is_dir.len() == actual.prune_profiles@.len(),
    ensures
        plan::profile_removals(dir.listing, live, dry, now) == plan::profile_removals(
            dir.listing,
            live,
            actual,
            now,
        ),
        sweep::entry_removals(dir, live, dry, now) == sweep::entry_removals(dir, live, actual, now),
        sweep::visited_profiles(entries, dry) == sweep::visited_profiles(entries, actual),
        sweep::wiped_places(dry, is_dir) == sweep::wiped_places(actual, is_dir),
{
    let xs = dry.prune_profiles@;
    let ys = actual.prune_profiles@;
    lemma_same_prunes(dry.prune_targets@, actual.prune_targets@);
    assert forall|i: int| 0 <= i < xs.len() implies #[trigger] xs[i]@ == ys[i]@ by {}
    assert forall|i: int| 0 <= i < ys.len() implies #[trigger] ys[i]@ == xs[i]@ by {
        assert(xs[i]@ == ys[i]@);
    }
    let a = |i: int| sweep::is_visited(entries[i], dry);
    let b = |i: int| sweep::is_visited(entries[i], actual);
    order::lemma_picks_agree(entries.len(), a, b);
    let c = |i: int| is_dir[i] && !sweep::is_spelled_before(xs, i);
    let d = |i: int| is_dir[i] && !sweep::is_spelled_before(ys, i);
    assert forall|i: int| #![trigger c(i)] #![trigger d(i)]
        0 <= i < is_dir.len() implies c(i) == d(i) by {
        if sweep::is_spelled_before(xs, i) {
            let j = choose|j: int|
                0 <= j < i && sweep::spelled_profile(#[trigger] xs[j]@) == sweep::spelled_profile(
                    xs[i]@,
                );
            assert(sweep::spelled_profile(ys[j]@) == sweep::spelled_profile(ys[i]@));
        }
        if sweep::is_spelled_before(ys, i) {
            let j = choose|j: int|
                0 <= j < i && sweep::spelled_profile(#[trigger] ys[j]@) == sweep::spelled_profile(
                    ys[i]@,
                );
            assert(sweep::spelled_profile(xs[j]@) == sweep::spelled_profile(xs[i]@));
        }
    }
    order::lemma_picks_agree(is_dir.len(), c, d);
}

/// Whether two fingerprint dirs are known to belong to one unit.
pub open spec fn are_one_unit(a: FingerprintDir, b: FingerprintDir) -> bool {
    &&& a.unit() is Some
    &&& b.unit() is Some
    &&& units::unit_key(a.files@) is Some
    &&& units::same_unit(a, b)
}

/// Whether `h` is the hash of a unit that the inventory lists.
pub open spec fn is_listed_hash(dirs: Seq<FingerprintDir>, h: Seq<char>) -> bool {
    exists|i: int| 0 <= i < dirs.len() && (#[trigger] dirs[i]).is_listed() && dirs[i].hash() == h
}

/// Whether a file's name is live by its hash or by its name.
pub open spec fn is_accounted_for(dirs: Seq<FingerprintDir>, live: LiveNames, filename: Seq<char>) -> bool {
    match inventory::unit_parts(inventory::stem(filename)) {
        Some((root, h)) => is_listed_hash(dirs, h) || sweep::is_live_name(root, live),
        None => sweep::is_live_name(inventory::stem(filename), live),
    }
}

/// Whether every unit of a profile dir is live and no older than the cutoff, and
/// no two units are the same.
pub open spec fn are_units_fresh(
    profile: ProfileListing,
    live: LiveNames,
    opts: SweepOptions,
    now: Timestamp,
) -> bool {
    let dirs = profile.fingerprints@;
    &&& forall|i: int|
        0 <= i < dirs.len() && (#[trigger] dirs[i]).is_listed() ==> dirs[i].is_current(
            live,
            opts.max_age_cutoff,
            now,
        )
    &&& forall|i: int, j: int|
        0 <= i < dirs.len() && 0 <= j < dirs.len() && i != j ==> !are_one_unit(
            #[trigger] dirs[i],
            #[trigger] dirs[j],
        )
}

/// Whether an entry of `deps/` is a file with a hash that no unit has.
pub open spec fn is_orphan_dep(dirs: Seq<FingerprintDir>, e: Entry) -> bool {
    &&& e.kind == EntryKind::File
    &&& e.is_unicode
    &&& inventory::deps_hash(e.name@) is Some
    &&& !is_listed_hash(dirs, inventory::deps_hash(e.name@)->0)
}

/// Whether an entry of `build/` is a dir with a hash that no unit has.
pub open spec fn is_orphan_build(dirs: Seq<FingerprintDir>, e: Entry) -> bool {
    &&& e.kind == EntryKind::Dir
    &&& inventory::unit_parts(e.name@) is Some
    &&& !is_listed_hash(dirs, (inventory::unit_parts(e.name@)->0).1)
}

/// Whether an entry is a file that is live neither by its hash nor by its name.
pub open spec fn is_orphan_file(dirs: Seq<FingerprintDir>, live: LiveNames, e: Entry) -> bool {
    e.kind == EntryKind::File && e.is_unicode && !is_accounted_for(dirs, live, e.name@)
}

/// Whether an incremental cache is that of a crate that is not live.
pub open spec fn is_orphan_cache(live: LiveNames, c: CacheDir) -> bool {
    c.cached_crate() matches Some(name) && !live_set::snake_all(live.crates).contains(name) && name
        != live_set::build_script_name()
}

/// Whether a profile dir is as a fresh build of a live project leaves it: every
/// unit is live and no older than the cutoff, no two units are the same, every
/// hash in `deps/` and `build/` is that of a unit, every other file has a live
/// name, and every crate with an incremental cache is live and has no more
/// sessions than are kept. Of the dirs beside those files nothing is asked.
pub open spec fn is_freshly_built(
    profile: ProfileListing,
    live: LiveNames,
    opts: SweepOptions,
    now: Timestamp,
) -> bool {
    let dirs = profile.fingerprints@;
    &&& are_units_fresh(profile, live, opts, now)
    &&& forall|p: int|
        0 <= p < profile.deps@.len() ==> !is_orphan_dep(dirs, #[trigger] profile.deps@[p])
    &&& forall|p: int|
        0 <= p < profile.build@.len() ==> !is_orphan_build(dirs, #[trigger] profile.build@[p])
    &&& forall|p: int|
        0 <= p < profile.incremental@.len() ==> !is_orphan_cache(
            live,
            #[trigger] profile.incremental@[p],
        ) && plan::newest_first(profile.incremental@[p].sessions@).len() <= opts.keep_sessions
    &&& forall|p: int|
        0 <= p < profile.top_level@.len() ==> !is_orphan_file(
            dirs,
            live,
            #[trigger] profile.top_level@[p],
        ) || profile.top_level@[p].name@ == ".cargo-lock"@
    &&& forall|p: int|
        0 <= p < profile.examples@.len() ==> !is_orphan_file(
            dirs,
            live,
            #[trigger] profile.examples@[p],
        )
}

/// Where the units are fresh and nothing is to be pruned, they are all in use.
proof fn lemma_fresh_units(
    profile: ProfileListing,
    live: LiveNames,
    opts: SweepOptions,
    now: Timestamp,
)
    requires
        are_units_fresh(profile, live, opts, now),
        opts.prune_targets@.len() == 0,
    ensures
        units::prune_names(opts.prune_targets@) == Set::<Seq<char>>::empty(),
        plan::settled_stock(profile, live, opts, now).stale == Seq::<usize>::empty(),
        plan::zombie_caches(profile, live, opts, now) == Seq::<usize>::empty(),
        forall|h: Seq<char>| #[trigger]
            plan::settled_stock(profile, live, opts, now).live.contains(h) <==> is_listed_hash(
                profile.fingerprints@,
                h,
            ),
{
    let dirs = profile.fingerprints@;
    let n = dirs.len();
    let cutoff = opts.max_age_cutoff;
    let prunes = units::prune_names(opts.prune_targets@);
    assert(n == profile.fingerprints.len());
    assert(profile.incremental@.len() == profile.incremental.len());
    assert(prunes =~= Set::empty());
    let none = Set::<Seq<char>>::empty();
    let s0 = taken(profile, live, opts, now);
    let s1 = units::without_demoted(dirs, live, s0);
    let outdated = |i: int| dirs[i].is_listed() && !dirs[i].is_current(live, cutoff, now);
    assert forall|i: int| 0 <= i < n implies !#[trigger] outdated(i) by {
        let d = dirs[i];
    }
    order::lemma_picks_none(n, outdated);
    let demoted = |i: int| units::is_demoted(dirs, live, s0.live, i);
    assert forall|i: int| 0 <= i < n implies !#[trigger] demoted(i) by {
        if demoted(i) {
            let j = choose|j: int|
                0 <= j < n && j != i && #[trigger] units::is_candidate(dirs[j], s0.live)
                    && units::same_unit(dirs[i], dirs[j]);
            assert(are_one_unit(dirs[i], dirs[j]));
        }
    }
    order::lemma_picks_none(n, demoted);
    assert(inventory::hashes_where(dirs, n as int, demoted) =~= none);
    assert(s1.live =~= s0.live);
    assert(s1.stale =~= Seq::<usize>::empty());
    assert(!units::dependency_demoted(dirs, live, s0.live)) by {
        if units::dependency_demoted(dirs, live, s0.live) {
            let i = choose|i: int|
                0 <= i < n && #[trigger] units::is_demoted(dirs, live, s0.live, i)
                    && !live.members.contains(dirs[i].crate_name());
            assert(demoted(i));
        }
    }
    let pruned = |i: int| units::is_pruned(dirs[i], prunes);
    let promoted = |i: int| units::is_promoted(dirs, prunes, s1, i);
    order::lemma_picks_none(n, promoted);
    assert(inventory::hashes_where(dirs, n as int, pruned) =~= none);
    let stock = plan::settled_stock(profile, live, opts, now);
    assert(stock.live =~= s0.live);
    assert(stock.stale =~= Seq::<usize>::empty());
    let current = |i: int| dirs[i].is_current(live, cutoff, now);
    assert forall|h: Seq<char>| #[trigger] is_listed_hash(dirs, h) implies stock.live.contains(h) by {
        let i = choose|i: int|
            0 <= i < n && (#[trigger] dirs[i]).is_listed() && dirs[i].hash() == h;
        assert(current(i));
    }
    assert forall|h: Seq<char>| #[trigger] stock.live.contains(h) implies is_listed_hash(dirs, h) by {
        let i = choose|i: int| 0 <= i < n && #[trigger] current(i) && h == dirs[i].hash();
        assert(dirs[i].is_listed());
    }
}

/// **A fresh build is a fixed point.** Where nothing is to be pruned, a sweep
/// removes nothing of it.
pub proof fn fresh_build_is_left_alone(
    profile: ProfileListing,
    live: LiveNames,
    opts: SweepOptions,
    now: Timestamp,
)
    requires
        is_freshly_built(profile, live, opts, now),
        opts.prune_targets@.len() == 0,
    ensures
        plan::profile_removals(profile, live, opts, now) == Seq::<Removal>::empty(),
{
    let dirs = profile.fingerprints@;
    let prunes = units::prune_names(opts.prune_targets@);
    let stock = plan::settled_stock(profile, live, opts, now);
    assert(profile.incremental@.len() == profile.incremental.len());
    lemma_fresh_units(profile, live, opts, now);
    let stale_dep = |p: int| plan::is_stale_dep(profile.deps@[p], stock.live, prunes);
    assert forall|p: int| 0 <= p < profile.deps@.len() implies !#[trigger] stale_dep(p) by {
        let e = profile.deps@[p];
    }
    order::lemma_picks_none(profile.deps@.len(), stale_dep);
    let stale_build = |p: int| plan::is_stale_build(profile.build@[p], stock.live, prunes);
    assert forall|p: int| 0 <= p < profile.build@.len() implies !#[trigger] stale_build(p) by {
        let e = profile.build@[p];
    }
    order::lemma_picks_none(profile.build@.len(), stale_build);
    let stale_top = |p: int|
        plan::is_stale_top_level(profile.top_level@[p], stock.live, live, prunes);
    assert forall|p: int| 0 <= p < profile.top_level@.len() implies !#[trigger] stale_top(p) by {
        let e = profile.top_level@[p];
    }
    order::lemma_picks_none(profile.top_level@.len(), stale_top);
    let stale_example = |p: int| plan::is_stale_example(profile.examples@[p], stock.live, live, prunes);
    assert forall|p: int| 0 <= p < profile.examples@.len() implies !#[trigger] stale_example(p) by {
        let e = profile.examples@[p];
    }
    order::lemma_picks_none(profile.examples@.len(), stale_example);
    assert forall|k: int| 0 <= k < profile.incremental@.len() implies #[trigger] plan::cache_removals(
        profile.incremental@[k],
        k as usize,
        live,
        prunes,
        opts.keep_sessions,
    ) == Seq::<Removal>::empty() by {
        let c = profile.incremental@[k];
    }
    lemma_no_cache_removals(
        profile.incremental@,
        profile.incremental@.len(),
        live,
        prunes,
        opts.keep_sessions,
    );
    assert(plan::profile_removals(profile, live, opts, now) =~= Seq::<Removal>::empty());
}

/// Whether a profile dir is as cargo leaves it behind the build of one program:
/// with the fingerprint dir, the depinfo and the incremental cache of its unit,
/// the program itself, cargo's lock file, and the dirs that hold the others.
pub open spec fn is_build_of(
    profile: ProfileListing,
    name: Seq<char>,
    hash: Seq<char>,
    tag: Seq<char>,
) -> bool {
    &&& profile.fingerprints@.len() == 1
    &&& profile.fingerprints@[0].is_dir && profile.fingerprints@[0].is_unicode
    &&& profile.fingerprints@[0].name@ == name + seq!['-'] + hash
    &&& profile.deps@.len() == 1
    &&& profile.deps@[0].kind == EntryKind::File && profile.deps@[0].is_unicode
    &&& profile.deps@[0].name@ == inventory::snake(name) + seq!['-'] + hash + seq!['.'] + seq!['d']
    &&& profile.build@.len() == 0
    &&& profile.incremental@.len() == 1
    &&& profile.incremental@[0].is_dir
    &&& profile.incremental@[0].name@ == inventory::snake(name) + seq!['-'] + tag
    &&& profile.top_level@.len() == 5
    &&& profile.top_level@[0].kind == EntryKind::Dir && profile.top_level@[0].name@
        == ".fingerprint"@
    &&& profile.top_level@[1].kind == EntryKind::Dir && profile.top_level@[1].name@ == "deps"@
    &&& profile.top_level@[2].kind == EntryKind::Dir && profile.top_level@[2].name@
        == "incremental"@
    &&& profile.top_level@[3].kind == EntryKind::File && profile.top_level@[3].name@
        == ".cargo-lock"@
    &&& profile.top_level@[4].kind == EntryKind::File && profile.top_level@[4].name@ == name
    &&& profile.examples@.len() == 0
}

/// What cargo leaves behind the build of a live program is freshly built, unless
/// its unit has fallen behind the cutoff, or it has more sessions than are kept.
pub proof fn build_of_a_program_is_fresh(
    profile: ProfileListing,
    live: LiveNames,
    opts: SweepOptions,
    now: Timestamp,
    name: Seq<char>,
    hash: Seq<char>,
    tag: Seq<char>,
)
    requires
        is_build_of(profile, name, hash, tag),
        live.crates.contains(name),
        name.len() > 0,
        !name.contains('.'),
        inventory::unit_parts(name) is None,
        inventory::is_hash(hash),
        !tag.contains('-'),
        profile.fingerprints@[0].is_fresh(opts.max_age_cutoff, now),
        plan::newest_first(profile.incremental@[0].sessions@).len() <= opts.keep_sessions,
    ensures
        is_freshly_built(profile, live, opts, now),
{
    let dirs = profile.fingerprints@;
    let snake = inventory::snake(name);
    name_laws::unit_name_reads_back(name, hash);
    assert(dirs[0].is_listed() && dirs[0].hash() == hash);
    assert(is_listed_hash(dirs, hash));
    assert(!seq!['d'].contains('.'));
    name_laws::artifact_carries_the_hash_of_its_unit(snake, hash, seq!['d']);
    name_laws::live_names_are_live_in_snake_case(live, name);
    let cache = profile.incremental@[0].name@;
    let dash = snake.len() as int;
    assert forall|j: int| dash < j < cache.len() implies cache[j] != '-' by {
        assert(cache[j] == tag[j - dash - 1]);
        assert(tag.contains(tag[j - dash - 1]));
    }
    text::lemma_last_position_is(cache, '-', dash);
    assert(cache.take(dash) =~= snake);
    text::lemma_last_position(name, '.');
    assert(inventory::stem(name) == name) by {
        if text::last_position(name, '.') is Some {
            assert(name.contains(name[text::last_position(name, '.')->0]));
        }
    }
}

/// **Of a build with orphans only the orphans go.** Where every unit is fresh and
/// nothing is to be pruned, a sweep takes no fingerprint dir, and of the files and
/// dirs beside them exactly those that belong to no unit and no live crate. Old
/// sessions of a crate may go too.
pub proof fn only_orphans_go(
    profile: ProfileListing,
    live: LiveNames,
    opts: SweepOptions,
    now: Timestamp,
    p: usize,
)
    requires
        are_units_fresh(profile, live, opts, now),
        opts.prune_targets@.len() == 0,
    ensures
        ({
            let dirs = profile.fingerprints@;
            let removals = plan::profile_removals(profile, live, opts, now);
            &&& !removals.contains(Removal::Fingerprint(p))
            &&& !removals.contains(Removal::ZombieCache(p))
            &&& removals.contains(Removal::DepsFile(p)) <==> p < profile.deps@.len()
                && is_orphan_dep(dirs, profile.deps@[p as int])
            &&& removals.contains(Removal::BuildDir(p)) <==> p < profile.build@.len()
                && is_orphan_build(dirs, profile.build@[p as int])
            &&& removals.contains(Removal::Cache(p)) <==> p < profile.incremental@.len()
                && is_orphan_cache(live, profile.incremental@[p as int])
            &&& removals.contains(Removal::TopLevelFile(p)) <==> p < profile.top_level@.len()
                && is_orphan_file(dirs, live, profile.top_level@[p as int])
                && profile.top_level@[p as int].name@ != ".cargo-lock"@
            &&& removals.contains(Removal::ExampleFile(p)) <==> p < profile.examples@.len()
                && is_orphan_file(dirs, live, profile.examples@[p as int])
        }),
{
    let prunes = units::prune_names(opts.prune_targets@);
    let stock = plan::settled_stock(profile, live, opts, now);
    let keep = opts.keep_sessions;
    assert(profile.deps@.len() == profile.deps.len());
    assert(profile.build@.len() == profile.build.len());
    assert(profile.incremental@.len() == profile.incremental.len());
    assert(profile.top_level@.len() == profile.top_level.len());
    assert(profile.examples@.len() == profile.examples.len());
    lemma_fresh_units(profile, live, opts, now);
    let stale_dep = |p: int| plan::is_stale_dep(profile.deps@[p], stock.live, prunes);
    let stale_build = |p: int| plan::is_stale_build(profile.build@[p], stock.live, prunes);
    let stale_top = |p: int|
        plan::is_stale_top_level(profile.top_level@[p], stock.live, live, prunes);
    let stale_example = |p: int|
        plan::is_stale_example(profile.examples@[p], stock.live, live, prunes);
    order::lemma_picks(profile.deps@.len(), stale_dep);
    order::lemma_picks(profile.build@.len(), stale_build);
    order::lemma_picks(profile.top_level@.len(), stale_top);
    order::lemma_picks(profile.examples@.len(), stale_example);
    lemma_removals(profile, live, opts, now, Removal::Fingerprint(p));
    lemma_removals(profile, live, opts, now, Removal::ZombieCache(p));
    lemma_removals(profile, live, opts, now, Removal::DepsFile(p));
    lemma_removals(profile, live, opts, now, Removal::BuildDir(p));
    lemma_removals(profile, live, opts, now, Removal::TopLevelFile(p));
    lemma_removals(profile, live, opts, now, Removal::ExampleFile(p));
    lemma_removals(profile, live, opts, now, Removal::Cache(p));
    assert(plan::stale_deps(profile, stock.live, prunes).contains(p) <==> p < profile.deps@.len()
        && stale_dep(p as int));
    assert(plan::stale_builds(profile, stock.live, prunes).contains(p) <==> p
        < profile.build@.len() && stale_build(p as int));
    assert(plan::stale_top_level(profile, stock.live, live, prunes).contains(p) <==> p
        < profile.top_level@.len() && stale_top(p as int));
    assert(plan::stale_examples(profile, stock.live, live, prunes).contains(p) <==> p
        < profile.examples@.len() && stale_example(p as int));
    let caches = profile.incremental@;
    let none = Seq::<usize>::empty();
    let r = Removal::Cache(p);
    lemma_incremental(caches, caches.len(), none, live, prunes, keep, r);
    assert forall|at: usize| at < caches.len() && #[trigger] plan::cache_removals(
        caches[at as int],
        at,
        live,
        prunes,
        keep,
    ).contains(r) implies at == p by {
        lemma_cache(caches[at as int], at, live, prunes, keep, r);
    }
    if p < caches.len() {
        lemma_cache(caches[p as int], p, live, prunes, keep, r);
        let b = plan::cache_removals(caches[p as int], p, live, prunes, keep).contains(r);
    }
}

/// **Without a cutoff only the live set decides.** A unit is out of date exactly
/// if its crate is not live.
pub proof fn strict_inventory_goes_by_name(
    dirs: Seq<FingerprintDir>,
    live: LiveNames,
    now: Timestamp,
    i: usize,
)
    requires
        dirs.len() <= usize::MAX,
    ensures
        inventory::taken_stock(dirs, live, None, now).stale.contains(i) <==> i < dirs.len()
            && dirs[i as int].is_listed() && !live.crates.contains(dirs[i as int].crate_name()),
        i < dirs.len() && dirs[i as int].is_listed() && live.crates.contains(
            dirs[i as int].crate_name(),
        ) ==> inventory::taken_stock(dirs, live, None, now).live.contains(dirs[i as int].hash()),
{
    let outdated = |i: int| dirs[i].is_listed() && !dirs[i].is_current(live, None, now);
    let current = |i: int| dirs[i].is_current(live, None, now);
    order::lemma_picks(dirs.len(), outdated);
    if i < dirs.len() {
        let b = current(i as int);
    }
}

/// **A later cutoff takes more.** What goes by an earlier cutoff goes by a later
/// one, and no cutoff takes least; what is in use by a later cutoff is in use by
/// an earlier one.
pub proof fn later_cutoff_takes_more(
    dirs: Seq<FingerprintDir>,
    live: LiveNames,
    earlier: Option<Timestamp>,
    later: Timestamp,
    now: Timestamp,
)
    requires
        dirs.len() <= usize::MAX,
        earlier matches Some(t) ==> t@ <= later@,
    ensures
        forall|i: usize| #[trigger]
            inventory::taken_stock(dirs, live, earlier, now).stale.contains(i)
                ==> inventory::taken_stock(dirs, live, Some(later), now).stale.contains(i),
        inventory::taken_stock(dirs, live, Some(later), now).live.subset_of(
            inventory::taken_stock(dirs, live, earlier, now).live,
        ),
{
    let a = inventory::taken_stock(dirs, live, earlier, now);
    let b = inventory::taken_stock(dirs, live, Some(later), now);
    let out_a = |i: int| dirs[i].is_listed() && !dirs[i].is_current(live, earlier, now);
    let out_b = |i: int| dirs[i].is_listed() && !dirs[i].is_current(live, Some(later), now);
    let in_a = |i: int| dirs[i].is_current(live, earlier, now);
    let in_b = |i: int| dirs[i].is_current(live, Some(later), now);
    order::lemma_picks(dirs.len(), out_a);
    order::lemma_picks(dirs.len(), out_b);
    assert forall|h: Seq<char>| b.live.contains(h) implies a.live.contains(h) by {
        let i = choose|i: int| 0 <= i < dirs.len() && #[trigger] in_b(i) && h == dirs[i].hash();
        assert(in_a(i));
    }
}

/// **A max age takes nothing of a build that is younger.** Where every unit was
/// invoked at the cutoff or later, the inventory is the one without a cutoff.
pub proof fn max_age_spares_young_units(
    dirs: Seq<FingerprintDir>,
    live: LiveNames,
    cutoff: Timestamp,
    now: Timestamp,
)
    requires
        cutoff@ <= now@,
        forall|i: int|
            0 <= i < dirs.len() ==> ((#[trigger] dirs[i]).invoked matches Some(t) ==> cutoff@
                <= t@),
    ensures
        inventory::taken_stock(dirs, live, Some(cutoff), now) == inventory::taken_stock(
            dirs,
            live,
            None,
            now,
        ),
{
    let a = inventory::taken_stock(dirs, live, Some(cutoff), now);
    let b = inventory::taken_stock(dirs, live, None, now);
    let out_a = |i: int| dirs[i].is_listed() && !dirs[i].is_current(live, Some(cutoff), now);
    let out_b = |i: int| dirs[i].is_listed() && !dirs[i].is_current(live, None, now);
    let in_a = |i: int| dirs[i].is_current(live, Some(cutoff), now);
    let in_b = |i: int| dirs[i].is_current(live, None, now);
    assert forall|i: int| #![trigger out_a(i)] #![trigger out_b(i)]
        0 <= i < dirs.len() implies out_a(i) == out_b(i) by {
        let d = dirs[i];
    }
    order::lemma_picks_agree(dirs.len(), out_a, out_b);
    assert forall|h: Seq<char>| a.live.contains(h) == b.live.contains(h) by {
        if a.live.contains(h) {
            let i = choose|i: int| 0 <= i < dirs.len() && #[trigger] in_a(i) && h == dirs[i].hash();
            assert(in_b(i));
        }
        if b.live.contains(h) {
            let i = choose|i: int| 0 <= i < dirs.len() && #[trigger] in_b(i) && h == dirs[i].hash();
            let d = dirs[i];
            assert(in_a(i));
        }
    }
    assert(a.live =~= b.live);
}

/// **A pruned target goes everywhere.** Of a target that is to be pruned every
/// fingerprint dir goes, everything named for it in `deps/`, `build/`, the profile
/// dir and `examples/`, and every incremental cache, however live and fresh they
/// are.
pub proof fn pruned_target_goes_everywhere(
    profile: ProfileListing,
    live: LiveNames,
    opts: SweepOptions,
    now: Timestamp,
    p: int,
)
    ensures
        ({
            let removals = plan::profile_removals(profile, live, opts, now);
            let prunes = units::prune_names(opts.prune_targets@);
            &&& 0 <= p < profile.fingerprints@.len() && units::is_pruned(
                profile.fingerprints@[p],
                prunes,
            ) ==> removals.contains(Removal::Fingerprint(p as usize))
            &&& 0 <= p < profile.top_level@.len() && profile.top_level@[p].kind == EntryKind::File
                && profile.top_level@[p].is_unicode && profile.top_level@[p].name@ != ".cargo-lock"@
                && sweep::is_pruned_file(profile.top_level@[p].name@, prunes) ==> removals.contains(
                Removal::TopLevelFile(p as usize),
            )
            &&& 0 <= p < profile.examples@.len() && profile.examples@[p].kind == EntryKind::File
                && profile.examples@[p].is_unicode && sweep::is_pruned_file(
                profile.examples@[p].name@,
                prunes,
            ) ==> removals.contains(Removal::ExampleFile(p as usize))
            &&& 0 <= p < profile.deps@.len() && profile.deps@[p].kind == EntryKind::File
                && profile.deps@[p].is_unicode && inventory::deps_hash(profile.deps@[p].name@)
                is Some && sweep::is_pruned_file(profile.deps@[p].name@, prunes)
                ==> removals.contains(Removal::DepsFile(p as usize))
            &&& 0 <= p < profile.build@.len() && profile.build@[p].kind == EntryKind::Dir && (
            inventory::unit_parts(profile.build@[p].name@) matches Some((name, _))
                && units::is_prune_name(name, prunes)) ==> removals.contains(
                Removal::BuildDir(p as usize),
            )
            &&& 0 <= p < profile.incremental@.len() && plan::is_pruned_cache(
                profile.incremental@[p],
                prunes,
            ) ==> is_cache_gone(removals, p)
        }),
{
    let stock = plan::settled_stock(profile, live, opts, now);
    let prunes = units::prune_names(opts.prune_targets@);
    let missing = plan::zombie_caches(profile, live, opts, now);
    let at = p as usize;
    assert(profile.fingerprints@.len() == profile.fingerprints.len());
    assert(profile.top_level@.len() == profile.top_level.len());
    assert(profile.incremental@.len() == profile.incremental.len());
    lemma_removals(profile, live, opts, now, Removal::Fingerprint(at));
    lemma_stale(profile, live, opts, now, at);
    lemma_removals(profile, live, opts, now, Removal::TopLevelFile(at));
    let stale_top = |p: int|
        plan::is_stale_top_level(profile.top_level@[p], stock.live, live, prunes);
    order::lemma_picks(profile.top_level@.len(), stale_top);
    let b = stale_top(p);
    assert(profile.examples@.len() == profile.examples.len());
    assert(profile.deps@.len() == profile.deps.len());
    assert(profile.build@.len() == profile.build.len());
    lemma_removals(profile, live, opts, now, Removal::ExampleFile(at));
    lemma_removals(profile, live, opts, now, Removal::DepsFile(at));
    lemma_removals(profile, live, opts, now, Removal::BuildDir(at));
    let stale_example = |p: int|
        plan::is_stale_example(profile.examples@[p], stock.live, live, prunes);
    let stale_dep = |p: int| plan::is_stale_dep(profile.deps@[p], stock.live, prunes);
    let stale_build = |p: int| plan::is_stale_build(profile.build@[p], stock.live, prunes);
    order::lemma_picks(profile.examples@.len(), stale_example);
    order::lemma_picks(profile.deps@.len(), stale_dep);
    order::lemma_picks(profile.build@.len(), stale_build);
    let b = stale_example(p);
    let b = stale_dep(p);
    let b = stale_build(p);
    lemma_removals(profile, live, opts, now, Removal::ZombieCache(at));
    lemma_removals(profile, live, opts, now, Removal::Cache(at));
    lemma_incremental(
        profile.incremental@,
        profile.incremental@.len(),
        missing,
        live,
        prunes,
        opts.keep_sessions,
        Removal::Cache(at),
    );
    if 0 <= p < profile.incremental@.len() {
        lemma_cache(
            profile.incremental@[p],
            at,
            live,
            prunes,
            opts.keep_sessions,
            Removal::Cache(at),
        );
        let c = plan::cache_removals(
            profile.incremental@[at as int],
            at,
            live,
            prunes,
            opts.keep_sessions,
        ).contains(Removal::Cache(at));
    }
}

/// **Pruning a target spares what is shared.** A file in `deps/` that carries the
/// hash of no unit of the target, nor its name, goes with the pruning exactly if
/// it goes without.
pub proof fn pruning_spares_other_artifacts(
    profile: ProfileListing,
    live: LiveNames,
    opts: SweepOptions,
    plain: SweepOptions,
    now: Timestamp,
    p: int,
)
    requires
        unit_laws::is_without_prunes(plain, opts),
        0 <= p < profile.deps@.len(),
        inventory::deps_hash(profile.deps@[p].name@) matches Some(h)
            && !units::is_pruned_hash(
            profile.fingerprints@,
            units::prune_names(opts.prune_targets@),
            h,
        ),
        !sweep::is_pruned_file(
            profile.deps@[p].name@,
            units::prune_names(opts.prune_targets@),
        ),
    ensures
        plan::profile_removals(profile, live, opts, now).contains(Removal::DepsFile(p as usize))
            <==> plan::profile_removals(profile, live, plain, now).contains(
            Removal::DepsFile(p as usize),
        ),
{
    let with = plan::settled_stock(profile, live, opts, now);
    let without = plan::settled_stock(profile, live, plain, now);
    let prunes = units::prune_names(opts.prune_targets@);
    let none = units::prune_names(plain.prune_targets@);
    assert(none =~= Set::empty());
    let h = inventory::deps_hash(profile.deps@[p].name@)->0;
    unit_laws::pruning_takes_the_target_only(profile, live, opts, plain, now, h, 0);
    assert(profile.deps@.len() == profile.deps.len());
    let stale_with = |p: int| plan::is_stale_dep(profile.deps@[p], with.live, prunes);
    let stale_without = |p: int| plan::is_stale_dep(profile.deps@[p], without.live, none);
    order::lemma_picks(profile.deps@.len(), stale_with);
    order::lemma_picks(profile.deps@.len(), stale_without);
    lemma_removals(profile, live, opts, now, Removal::DepsFile(p as usize));
    lemma_removals(profile, live, plain, now, Removal::DepsFile(p as usize));
    assert(stale_with(p) == stale_without(p));
}

/// **The newest sessions of a crate stay.** As many sessions are old as there are
/// beyond those to keep, and none of them is newer than one that stays.
pub proof fn newest_sessions_stay(sessions: Seq<SessionEntry>, keep: usize, a: usize, b: usize)
    requires
        sessions.len() <= usize::MAX,
    ensures
        ({
            let count = order::picks(sessions.len(), |j: int| plan::is_session(sessions[j])).len();
            plan::old_sessions(sessions, keep).len() == if count <= keep {
                0
            } else {
                count - keep
            }
        }),
        plan::old_sessions(sessions, keep).contains(a) ==> a < sessions.len() && plan::is_session(
            sessions[a as int],
        ),
        plan::old_sessions(sessions, keep).contains(a) && b < sessions.len() && plan::is_session(
            sessions[b as int],
        ) && !plan::old_sessions(sessions, keep).contains(b) ==> plan::not_older(sessions, b, a),
{
    let is_one = |j: int| plan::is_session(sessions[j]);
    let le = |a: usize, b: usize| plan::not_older(sessions, a, b);
    let all = order::picks(sessions.len(), is_one);
    let sorted = plan::newest_first(sessions);
    let gone = plan::old_sessions(sessions, keep);
    order::lemma_picks(sessions.len(), is_one);
    order::lemma_sorted(all, le);
    if gone.contains(a) {
        let k = choose|k: int| 0 <= k < gone.len() && gone[k] == a;
        assert(sorted[k + keep] == a);
        assert(sorted.contains(a));
        assert(all.contains(a));
        if b < sessions.len() && plan::is_session(sessions[b as int]) && !gone.contains(b) {
            assert(is_one(b as int));
            assert(all.contains(b));
            assert(sorted.contains(b));
            let l = choose|l: int| 0 <= l < sorted.len() && sorted[l] == b;
            if l >= keep {
                assert(gone[l - keep] == b);
            }
            assert(le(sorted[l], sorted[k + keep]));
        }
    }
}

/// **The workspace's incremental caches go with a superseded dependency.** Where
/// a unit of a workspace member was in use, each cache of a member goes.
pub proof fn workspace_caches_go_with_a_dependency(
    profile: ProfileListing,
    live: LiveNames,
    opts: SweepOptions,
    now: Timestamp,
    p: int,
)
    requires
        units::purges_caches(
            profile.fingerprints@,
            live,
            inventory::taken_stock(profile.fingerprints@, live, opts.max_age_cutoff, now),
        ),
        0 <= p < profile.incremental@.len(),
        units::is_member_cache(profile.incremental@[p], live),
    ensures
        plan::profile_removals(profile, live, opts, now).contains(
            Removal::ZombieCache(p as usize),
        ),
{
    let cached = |i: int| units::is_member_cache(profile.incremental@[i], live);
    assert(profile.incremental@.len() == profile.incremental.len());
    order::lemma_picks(profile.incremental@.len(), cached);
    assert(cached(p));
    assert(order::picks(profile.incremental@.len(), cached).contains(p as usize));
    lemma_removals(profile, live, opts, now, Removal::ZombieCache(p as usize));
}

/// **A run visits the profiles that a listing shows**, but for those that are
/// wiped as a whole. A restriction to one profile leaves those of that name, or
/// all where targets are pruned.
pub proof fn sweep_visits_listed_profiles(entries: Seq<TargetEntry>, opts: SweepOptions, i: usize)
    requires
        entries.len() <= usize::MAX,
    ensures
        sweep::visited_profiles(entries, opts).contains(i) <==> target_dir::profiles_by_name(
            entries,
        ).contains(i) && !sweep::is_wiped_name(entries[i as int].name@, opts) && (
        sweep::is_in_scope(entries[i as int], opts) || opts.prune_targets@.len() > 0),
        target_dir::profiles_by_name(entries).contains(i) <==> i < entries.len()
            && target_dir::is_profile(entries[i as int]),
{
    let profile = |i: int| target_dir::is_profile(entries[i]);
    let visited = |i: int| sweep::is_visited(entries[i], opts);
    let le = |a: usize, b: usize| target_dir::named_no_later(entries, a, b);
    let all = order::picks(entries.len(), profile);
    let sorted = target_dir::profiles_by_name(entries);
    order::lemma_picks(entries.len(), profile);
    order::lemma_picks(entries.len(), visited);
    target_dir::lemma_total(entries);
    order::lemma_sorted(all, le);
    assert(sorted.contains(i) <==> all.contains(i));
}

} // verus!
