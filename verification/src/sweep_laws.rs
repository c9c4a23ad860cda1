//! What a sweep takes and what it leaves, said of the names and the times that
//! stand on disk.

use vstd::prelude::*;

use crate::inventory::{self, FingerprintDir};
use crate::laws;
use crate::listing::{CacheDir, EntryKind, ProfileListing, SessionEntry};
use crate::live_set::LiveNames;
use crate::name_laws;
use crate::order;
use crate::plain;
use crate::plan::{self, Removal};
use crate::sweep::{self, ProfileDir, SweepOptions};
use crate::target_dir::{self, TargetEntry};
use crate::text;
use crate::timestamp::Timestamp;
use crate::unit_laws;
use crate::units::{self, Note};

verus! {

broadcast use vstd::seq::group_seq_axioms;

/// Whether a fingerprint dir is that of a unit of the live crate `c` with the hash
/// `h`, and not too old.
pub open spec fn is_in_use(
    d: FingerprintDir,
    c: Seq<char>,
    h: Seq<char>,
    live: LiveNames,
    opts: SweepOptions,
    now: Timestamp,
) -> bool {
    &&& plain::is_unit_of(d, c, h)
    &&& d.is_unicode
    &&& live.crates.contains(c)
    &&& !plain::is_too_old(d, opts.max_age_cutoff, now)
}

/// Whether the records of two fingerprint dirs name the same target and the same
/// profile.
pub open spec fn has_same_record(a: FingerprintDir, b: FingerprintDir) -> bool {
    match (units::unit_key(a.files@), units::unit_key(b.files@)) {
        (Some(x), Some(y)) => x.0 == y.0 && x.1 == y.1,
        _ => false,
    }
}

/// Whether two dirs of one dependency are in use whose records name the same target
/// and profile.
pub open spec fn has_doubled_dependency(
    dirs: Seq<FingerprintDir>,
    live: LiveNames,
    opts: SweepOptions,
    now: Timestamp,
) -> bool {
    exists|i: int, j: int, c: Seq<char>, g: Seq<char>, h: Seq<char>|
        0 <= i < dirs.len() && 0 <= j < dirs.len() && i != j && #[trigger] is_in_use(
            dirs[i],
            c,
            g,
            live,
            opts,
            now,
        ) && #[trigger] is_in_use(dirs[j], c, h, live, opts, now) && !live.members.contains(c)
            && has_same_record(dirs[i], dirs[j])
}

/// A fingerprint dir in use is a current one.
proof fn lemma_current(
    d: FingerprintDir,
    c: Seq<char>,
    h: Seq<char>,
    live: LiveNames,
    opts: SweepOptions,
    now: Timestamp,
)
    ensures
        is_in_use(d, c, h, live, opts, now) <==> d.is_current(live, opts.max_age_cutoff, now)
            && d.crate_name() == c && d.hash() == h,
        d.is_current(live, opts.max_age_cutoff, now) ==> is_in_use(
            d,
            d.crate_name(),
            d.hash(),
            live,
            opts,
            now,
        ),
        plain::is_unit_of(d, c, h) <==> d.unit() is Some && d.crate_name() == c && d.hash() == h,
        d.unit() is Some ==> plain::is_unit_of(d, d.crate_name(), d.hash()),
{
    name_laws::fingerprint_dir_is_told_by_its_name(d, c, h);
    name_laws::fingerprint_dir_is_told_by_its_name(d, d.crate_name(), d.hash());
}

/// Dirs with different hashes.
proof fn lemma_distinct(dirs: Seq<FingerprintDir>)
    requires
        plain::has_one_dir_for_each_hash(dirs),
    ensures
        laws::has_distinct_hashes(dirs),
{
    assert forall|i: int, j: int|
        0 <= i < dirs.len() && 0 <= j < dirs.len() && i != j && (#[trigger] dirs[i]).unit() is Some
            && (#[trigger] dirs[j]).unit() is Some implies dirs[i].hash() != dirs[j].hash() by {
        let a = dirs[i];
        let b = dirs[j];
        name_laws::fingerprint_dir_is_told_by_its_name(a, a.crate_name(), a.hash());
        name_laws::fingerprint_dir_is_told_by_its_name(b, b.crate_name(), b.hash());
        assert(plain::is_unit_of(dirs[i], a.crate_name(), a.hash()));
        assert(plain::is_unit_of(dirs[j], b.crate_name(), b.hash()));
    }
}

/// The hash of a unit is in use exactly if its dir is, where no other dir has it.
proof fn lemma_own_hash(
    profile: ProfileListing,
    live: LiveNames,
    opts: SweepOptions,
    now: Timestamp,
    i: int,
)
    requires
        laws::has_distinct_hashes(profile.fingerprints@),
        0 <= i < profile.fingerprints@.len(),
        profile.fingerprints@[i].unit() is Some,
    ensures
        laws::taken(profile, live, opts, now).live.contains(profile.fingerprints@[i].hash())
            <==> profile.fingerprints@[i].is_current(live, opts.max_age_cutoff, now),
{
    let dirs = profile.fingerprints@;
    let current = |k: int| dirs[k].is_current(live, opts.max_age_cutoff, now);
    let h = dirs[i].hash();
    if laws::taken(profile, live, opts, now).live.contains(h) {
        let k = choose|k: int| 0 <= k < dirs.len() && #[trigger] current(k) && h == dirs[k].hash();
        assert(dirs[k].unit() is Some);
        assert(k == i);
    }
    if dirs[i].is_current(live, opts.max_age_cutoff, now) {
        assert(current(i));
    }
}

/// **Units of other crates go, and so do old ones.** A fingerprint dir goes if its
/// crate is not live, or if it was last invoked before the cutoff.
pub proof fn foreign_and_old_units_go(
    profile: ProfileListing,
    live: LiveNames,
    opts: SweepOptions,
    now: Timestamp,
    i: usize,
    c: Seq<char>,
    h: Seq<char>,
)
    requires
        i < profile.fingerprints@.len(),
        plain::is_unit_of(profile.fingerprints@[i as int], c, h),
        profile.fingerprints@[i as int].is_unicode,
        !live.crates.contains(c) || plain::is_too_old(
            profile.fingerprints@[i as int],
            opts.max_age_cutoff,
            now,
        ),
    ensures
        plan::profile_removals(profile, live, opts, now).contains(Removal::Fingerprint(i)),
{
    let d = profile.fingerprints@[i as int];
    lemma_current(d, c, h, live, opts, now);
    laws::lemma_removals(profile, live, opts, now, Removal::Fingerprint(i));
    laws::lemma_stale(profile, live, opts, now, i);
}

/// **A pruned target's units go**, however live and young they are.
pub proof fn units_of_a_pruned_target_go(
    profile: ProfileListing,
    live: LiveNames,
    opts: SweepOptions,
    now: Timestamp,
    i: usize,
    c: Seq<char>,
    h: Seq<char>,
)
    requires
        i < profile.fingerprints@.len(),
        plain::is_unit_of(profile.fingerprints@[i as int], c, h),
        plain::is_one_but_dashes(opts.prune_targets@, c),
    ensures
        plan::profile_removals(profile, live, opts, now).contains(Removal::Fingerprint(i)),
        plan::pruned_removals(profile, opts).contains(Removal::Fingerprint(i)),
{
    let d = profile.fingerprints@[i as int];
    lemma_current(d, c, h, live, opts, now);
    unit_laws::target_is_pruned_whatever_its_dashes(opts.prune_targets@, c, c);
    laws::lemma_removals(profile, live, opts, now, Removal::Fingerprint(i));
    laws::lemma_stale(profile, live, opts, now, i);
    laws::lemma_pruned_removals(profile, opts, Removal::Fingerprint(i));
}

/// Two dirs in use of one crate and one record belong to one unit.
proof fn lemma_rivals(
    profile: ProfileListing,
    live: LiveNames,
    opts: SweepOptions,
    now: Timestamp,
    i: int,
    j: int,
    c: Seq<char>,
    g: Seq<char>,
    h: Seq<char>,
)
    requires
        0 <= i < profile.fingerprints@.len(),
        0 <= j < profile.fingerprints@.len(),
        is_in_use(profile.fingerprints@[i], c, g, live, opts, now),
        is_in_use(profile.fingerprints@[j], c, h, live, opts, now),
        has_same_record(profile.fingerprints@[i], profile.fingerprints@[j]),
    ensures
        ({
            let dirs = profile.fingerprints@;
            let hashes = laws::taken(profile, live, opts, now).live;
            &&& units::is_candidate(dirs[i], hashes)
            &&& units::is_candidate(dirs[j], hashes)
            &&& units::same_unit(dirs[i], dirs[j])
            &&& units::same_unit(dirs[j], dirs[i])
            &&& dirs[i].crate_name() == c
            &&& dirs[j].crate_name() == c
        }),
{
    let dirs = profile.fingerprints@;
    let current = |k: int| dirs[k].is_current(live, opts.max_age_cutoff, now);
    lemma_current(dirs[i], c, g, live, opts, now);
    lemma_current(dirs[j], c, h, live, opts, now);
    assert(current(i) && current(j));
}

/// **Of a member's unit the older dir goes.** Of two dirs in use of one workspace
/// member whose records name the same target and the same profile, the one that
/// was invoked earlier goes; of two that were invoked at one time the one that is
/// listed later.
pub proof fn older_dir_of_a_member_unit_goes(
    profile: ProfileListing,
    live: LiveNames,
    opts: SweepOptions,
    now: Timestamp,
    i: usize,
    j: usize,
    c: Seq<char>,
    g: Seq<char>,
    h: Seq<char>,
)
    requires
        i < profile.fingerprints@.len(),
        j < profile.fingerprints@.len(),
        is_in_use(profile.fingerprints@[i as int], c, g, live, opts, now),
        is_in_use(profile.fingerprints@[j as int], c, h, live, opts, now),
        has_same_record(profile.fingerprints@[i as int], profile.fingerprints@[j as int]),
        plain::is_later_dir(profile.fingerprints@, j as int, i as int),
    ensures
        plan::profile_removals(profile, live, opts, now).contains(Removal::Fingerprint(i)),
{
    let dirs = profile.fingerprints@;
    lemma_rivals(profile, live, opts, now, i as int, j as int, c, g, h);
    laws::lemma_removals(profile, live, opts, now, Removal::Fingerprint(i));
    laws::lemma_stale(profile, live, opts, now, i);
    assert(units::is_newer(dirs, j as int, i as int));
}

/// Some dependency is demoted exactly if one is doubled.
proof fn lemma_doubled(
    profile: ProfileListing,
    live: LiveNames,
    opts: SweepOptions,
    now: Timestamp,
)
    requires
        plain::has_one_dir_for_each_hash(profile.fingerprints@),
    ensures
        units::dependency_demoted(
            profile.fingerprints@,
            live,
            laws::taken(profile, live, opts, now).live,
        ) <==> has_doubled_dependency(profile.fingerprints@, live, opts, now),
{
    let dirs = profile.fingerprints@;
    let hashes = laws::taken(profile, live, opts, now).live;
    lemma_distinct(dirs);
    if units::dependency_demoted(dirs, live, hashes) {
        let i = choose|i: int|
            0 <= i < dirs.len() && #[trigger] units::is_demoted(dirs, live, hashes, i)
                && !live.members.contains(dirs[i].crate_name());
        let j = choose|j: int|
            0 <= j < dirs.len() && j != i && #[trigger] units::is_candidate(dirs[j], hashes)
                && units::same_unit(dirs[i], dirs[j]);
        lemma_own_hash(profile, live, opts, now, i);
        lemma_own_hash(profile, live, opts, now, j);
        let c = dirs[i].crate_name();
        lemma_current(dirs[i], c, dirs[i].hash(), live, opts, now);
        lemma_current(dirs[j], c, dirs[j].hash(), live, opts, now);
        assert(is_in_use(dirs[i], c, dirs[i].hash(), live, opts, now));
        assert(is_in_use(dirs[j], c, dirs[j].hash(), live, opts, now));
        assert(has_same_record(dirs[i], dirs[j]));
    }
    if has_doubled_dependency(dirs, live, opts, now) {
        let (i, j, c, g, h) = choose|i: int, j: int, c: Seq<char>, g: Seq<char>, h: Seq<char>|
            0 <= i < dirs.len() && 0 <= j < dirs.len() && i != j && #[trigger] is_in_use(
                dirs[i],
                c,
                g,
                live,
                opts,
                now,
            ) && #[trigger] is_in_use(dirs[j], c, h, live, opts, now) && !live.members.contains(c)
                && has_same_record(dirs[i], dirs[j]);
        lemma_rivals(profile, live, opts, now, i, j, c, g, h);
        assert(units::is_demoted(dirs, live, hashes, i));
    }
}

/// **A doubled dependency goes, and the workspace with it.** Of two dirs in use of
/// one dependency whose records name the same target and the same profile both go,
/// and so does every dir in use of a workspace member.
pub proof fn doubled_dependency_goes_with_the_workspace(
    profile: ProfileListing,
    live: LiveNames,
    opts: SweepOptions,
    now: Timestamp,
    i: usize,
    j: usize,
    c: Seq<char>,
    g: Seq<char>,
    h: Seq<char>,
    k: usize,
)
    requires
        plain::has_one_dir_for_each_hash(profile.fingerprints@),
        i < profile.fingerprints@.len(),
        j < profile.fingerprints@.len(),
        i != j,
        is_in_use(profile.fingerprints@[i as int], c, g, live, opts, now),
        is_in_use(profile.fingerprints@[j as int], c, h, live, opts, now),
        has_same_record(profile.fingerprints@[i as int], profile.fingerprints@[j as int]),
        !live.members.contains(c),
    ensures
        plan::profile_removals(profile, live, opts, now).contains(Removal::Fingerprint(i)),
        plan::profile_removals(profile, live, opts, now).contains(Removal::Fingerprint(j)),
        forall|e: Seq<char>, f: Seq<char>|
            k < profile.fingerprints@.len() && #[trigger] is_in_use(
                profile.fingerprints@[k as int],
                e,
                f,
                live,
                opts,
                now,
            ) && live.members.contains(e) ==> plan::profile_removals(
                profile,
                live,
                opts,
                now,
            ).contains(Removal::Fingerprint(k)),
{
    let dirs = profile.fingerprints@;
    let s0 = laws::taken(profile, live, opts, now);
    let s1 = units::without_demoted(dirs, live, s0);
    lemma_distinct(dirs);
    lemma_rivals(profile, live, opts, now, i as int, j as int, c, g, h);
    assert(units::is_demoted(dirs, live, s0.live, i as int));
    assert(units::is_demoted(dirs, live, s0.live, j as int));
    assert(units::dependency_demoted(dirs, live, s0.live));
    laws::lemma_removals(profile, live, opts, now, Removal::Fingerprint(i));
    laws::lemma_stale(profile, live, opts, now, i);
    laws::lemma_removals(profile, live, opts, now, Removal::Fingerprint(j));
    laws::lemma_stale(profile, live, opts, now, j);
    laws::lemma_removals(profile, live, opts, now, Removal::Fingerprint(k));
    laws::lemma_stale(profile, live, opts, now, k);
    assert forall|e: Seq<char>, f: Seq<char>|
        k < dirs.len() && #[trigger] is_in_use(dirs[k as int], e, f, live, opts, now)
            && live.members.contains(e) implies plan::profile_removals(
        profile,
        live,
        opts,
        now,
    ).contains(Removal::Fingerprint(k)) by {
        lemma_current(dirs[k as int], e, f, live, opts, now);
        lemma_own_hash(profile, live, opts, now, k as int);
        if !units::is_demoted(dirs, live, s0.live, k as int) {
            lemma_zombie(profile, live, opts, now, k as int);
        }
    }
}

/// A dir in use of a workspace member that is not demoted is a zombie if anything
/// makes it one.
proof fn lemma_zombie(
    profile: ProfileListing,
    live: LiveNames,
    opts: SweepOptions,
    now: Timestamp,
    k: int,
)
    requires
        laws::has_distinct_hashes(profile.fingerprints@),
        0 <= k < profile.fingerprints@.len(),
    ensures
        ({
            let dirs = profile.fingerprints@;
            let s0 = laws::taken(profile, live, opts, now);
            units::is_zombie(dirs, live, units::without_demoted(dirs, live, s0).live, k)
                <==> dirs[k].is_current(live, opts.max_age_cutoff, now) && live.members.contains(
                dirs[k].crate_name(),
            ) && !units::is_demoted(dirs, live, s0.live, k)
        }),
{
    let dirs = profile.fingerprints@;
    let n = dirs.len() as int;
    let s0 = laws::taken(profile, live, opts, now);
    let demoted = |i: int| units::is_demoted(dirs, live, s0.live, i);
    let gone = inventory::hashes_where(dirs, n, demoted);
    if dirs[k].unit() is Some {
        let h = dirs[k].hash();
        lemma_own_hash(profile, live, opts, now, k);
        assert(gone.contains(h) <==> demoted(k)) by {
            if gone.contains(h) {
                let j = choose|j: int| 0 <= j < n && #[trigger] demoted(j) && h == dirs[j].hash();
                assert(dirs[j].unit() is Some);
                assert(j == k);
            }
        }
        assert forall|j: int| 0 <= j < k && #[trigger] units::is_member_unit(dirs[j], live)
            implies dirs[j].hash() != h by {
            assert(dirs[j].unit() is Some);
        }
    }
}

/// **A unit without a rival stays.** The dir of a unit in use is left alone if its
/// target is not to be pruned and every other dir in use of its crate belongs to
/// another target or another profile, or is older and both are a workspace
/// member's. Of a workspace member that holds where no dependency is doubled.
pub proof fn unit_without_a_rival_stays(
    profile: ProfileListing,
    live: LiveNames,
    opts: SweepOptions,
    now: Timestamp,
    i: usize,
    c: Seq<char>,
    h: Seq<char>,
)
    requires
        plain::has_one_dir_for_each_hash(profile.fingerprints@),
        i < profile.fingerprints@.len(),
        is_in_use(profile.fingerprints@[i as int], c, h, live, opts, now),
        !plain::is_one_but_dashes(opts.prune_targets@, c),
        forall|j: int, g: Seq<char>|
            0 <= j < profile.fingerprints@.len() && j != i && #[trigger] is_in_use(
                profile.fingerprints@[j],
                c,
                g,
                live,
                opts,
                now,
            ) ==> !has_same_record(profile.fingerprints@[i as int], profile.fingerprints@[j]) || (
            live.members.contains(c) && plain::is_later_dir(
                profile.fingerprints@,
                i as int,
                j,
            )),
        live.members.contains(c) ==> !has_doubled_dependency(
            profile.fingerprints@,
            live,
            opts,
            now,
        ),
    ensures
        !plan::profile_removals(profile, live, opts, now).contains(Removal::Fingerprint(i)),
{
    let dirs = profile.fingerprints@;
    let s0 = laws::taken(profile, live, opts, now);
    let d = dirs[i as int];
    lemma_distinct(dirs);
    lemma_current(d, c, h, live, opts, now);
    laws::lemma_removals(profile, live, opts, now, Removal::Fingerprint(i));
    laws::lemma_stale(profile, live, opts, now, i);
    unit_laws::target_is_pruned_whatever_its_dashes(opts.prune_targets@, c, c);
    assert(!units::is_demoted(dirs, live, s0.live, i as int)) by {
        if units::is_demoted(dirs, live, s0.live, i as int) {
            let j = choose|j: int|
                0 <= j < dirs.len() && j != i && #[trigger] units::is_candidate(dirs[j], s0.live)
                    && units::same_unit(dirs[i as int], dirs[j]) && (live.members.contains(
                    dirs[i as int].crate_name(),
                ) ==> units::is_newer(dirs, j, i as int));
            lemma_own_hash(profile, live, opts, now, j);
            lemma_current(dirs[j], c, dirs[j].hash(), live, opts, now);
            assert(is_in_use(dirs[j], c, dirs[j].hash(), live, opts, now));
            assert(has_same_record(d, dirs[j]));
        }
    }
    lemma_doubled(profile, live, opts, now);
    lemma_zombie(profile, live, opts, now, i as int);
}

/// **What is no unit stays**: an entry of `.fingerprint/` that is no dir, or whose
/// name does not end in a dash and sixteen hexadecimal digits.
pub proof fn what_is_no_unit_stays(
    profile: ProfileListing,
    live: LiveNames,
    opts: SweepOptions,
    now: Timestamp,
    i: usize,
)
    requires
        plan::profile_removals(profile, live, opts, now).contains(Removal::Fingerprint(i)),
    ensures
        i < profile.fingerprints@.len(),
        exists|c: Seq<char>, h: Seq<char>| #[trigger]
            plain::is_unit_of(profile.fingerprints@[i as int], c, h),
{
    laws::lemma_removals(profile, live, opts, now, Removal::Fingerprint(i));
    laws::lemma_stale(profile, live, opts, now, i);
    let d = profile.fingerprints@[i as int];
    name_laws::fingerprint_dir_is_told_by_its_name(d, d.crate_name(), d.hash());
    assert(plain::is_unit_of(d, d.crate_name(), d.hash()));
}

/// Whether an incremental cache belongs to the crate `c`.
pub open spec fn is_cache_of(cache: CacheDir, c: Seq<char>) -> bool {
    cache.is_dir && exists|tag: Seq<char>|
        cache.name@ == #[trigger] plain::dashed(c, tag) && !tag.contains('-')
}

/// Whether `name` is one of `names`, or one of them with underscores for dashes.
pub open spec fn is_in_either_form(names: Set<Seq<char>>, name: Seq<char>) -> bool {
    names.contains(name) || exists|n: Seq<char>| #[trigger]
        names.contains(n) && plain::is_underscored(n, name)
}

/// **The caches of the workspace go with a doubled dependency, and only then**, if
/// a workspace member was built against it.
pub proof fn caches_of_the_workspace_go_with_a_doubled_dependency(
    profile: ProfileListing,
    live: LiveNames,
    opts: SweepOptions,
    now: Timestamp,
    p: usize,
)
    requires
        plain::has_one_dir_for_each_hash(profile.fingerprints@),
    ensures
        plan::profile_removals(profile, live, opts, now).contains(Removal::ZombieCache(p)) <==> {
            &&& p < profile.incremental@.len()
            &&& exists|c: Seq<char>| #[trigger]
                is_cache_of(profile.incremental@[p as int], c) && is_in_either_form(live.members, c)
            &&& has_doubled_dependency(profile.fingerprints@, live, opts, now)
            &&& exists|k: int, e: Seq<char>, f: Seq<char>|
                0 <= k < profile.fingerprints@.len() && #[trigger] is_in_use(
                    profile.fingerprints@[k],
                    e,
                    f,
                    live,
                    opts,
                    now,
                ) && live.members.contains(e)
        },
{
    let dirs = profile.fingerprints@;
    let s0 = laws::taken(profile, live, opts, now);
    let rest = units::without_demoted(dirs, live, s0).live;
    assert(profile.incremental@.len() == profile.incremental.len());
    lemma_distinct(dirs);
    lemma_doubled(profile, live, opts, now);
    laws::lemma_removals(profile, live, opts, now, Removal::ZombieCache(p));
    let member = |i: int| units::is_member_cache(profile.incremental@[i], live);
    order::lemma_picks(profile.incremental@.len(), member);
    if units::any_zombie(dirs, live, rest) {
        let k = choose|k: int| 0 <= k < dirs.len() && #[trigger] units::is_zombie(dirs, live, rest, k);
        lemma_zombie(profile, live, opts, now, k);
        lemma_current(dirs[k], dirs[k].crate_name(), dirs[k].hash(), live, opts, now);
        assert(is_in_use(dirs[k], dirs[k].crate_name(), dirs[k].hash(), live, opts, now));
    }
    assert forall|k: int, e: Seq<char>, f: Seq<char>|
        0 <= k < dirs.len() && #[trigger] is_in_use(dirs[k], e, f, live, opts, now)
            && live.members.contains(e) implies units::any_zombie(dirs, live, rest) by {
        lemma_current(dirs[k], e, f, live, opts, now);
        lemma_own_hash(profile, live, opts, now, k);
        if units::is_demoted(dirs, live, s0.live, k) {
            let newest = unit_laws::newest_of_a_member_unit_stays(dirs, live, s0.live, k);
            lemma_own_hash(profile, live, opts, now, newest);
            assert(units::is_candidate(dirs[newest], s0.live));
            lemma_zombie(profile, live, opts, now, newest);
            assert(units::is_zombie(dirs, live, rest, newest));
        } else {
            lemma_zombie(profile, live, opts, now, k);
            assert(units::is_zombie(dirs, live, rest, k));
        }
    }
    if p < profile.incremental@.len() {
        let cache = profile.incremental@[p as int];
        assert(member(p as int) <==> exists|c: Seq<char>| #[trigger]
            is_cache_of(cache, c) && is_in_either_form(live.members, c)) by {
            if member(p as int) {
                let c = cache.cached_crate()->0;
                name_laws::cache_belongs_to_the_crate_before_its_last_dash(cache, c);
                name_laws::live_is_a_live_name_in_either_form(live, c);
                assert(is_cache_of(cache, c));
            }
            if exists|c: Seq<char>| #[trigger]
                is_cache_of(cache, c) && is_in_either_form(live.members, c) {
                let c = choose|c: Seq<char>| #[trigger]
                    is_cache_of(cache, c) && is_in_either_form(live.members, c);
                name_laws::cache_belongs_to_the_crate_before_its_last_dash(cache, c);
                name_laws::live_is_a_live_name_in_either_form(live, c);
            }
        }
        assert(order::picks(profile.incremental@.len(), member).contains(p) <==> member(p as int));
    }
}

/// Whether the dir of a unit in use with the hash `h` is left.
pub open spec fn has_unit_left(
    profile: ProfileListing,
    live: LiveNames,
    opts: SweepOptions,
    now: Timestamp,
    h: Seq<char>,
) -> bool {
    exists|i: usize, c: Seq<char>|
        i < profile.fingerprints@.len() && #[trigger] is_in_use(
            profile.fingerprints@[i as int],
            c,
            h,
            live,
            opts,
            now,
        ) && !plan::profile_removals(profile, live, opts, now).contains(Removal::Fingerprint(i))
}

/// The hashes in use are those of the units that are left.
proof fn lemma_left(
    profile: ProfileListing,
    live: LiveNames,
    opts: SweepOptions,
    now: Timestamp,
    h: Seq<char>,
)
    requires
        plain::has_one_dir_for_each_hash(profile.fingerprints@),
    ensures
        plan::settled_stock(profile, live, opts, now).live.contains(h) <==> has_unit_left(
            profile,
            live,
            opts,
            now,
            h,
        ),
{
    let dirs = profile.fingerprints@;
    assert(dirs.len() == profile.fingerprints.len());
    lemma_distinct(dirs);
    if plan::settled_stock(profile, live, opts, now).live.contains(h) {
        let i = laws::lemma_in_use(profile, live, opts, now, h);
        lemma_current(dirs[i], dirs[i].crate_name(), h, live, opts, now);
        laws::lemma_removals(profile, live, opts, now, Removal::Fingerprint(i as usize));
        assert(is_in_use(dirs[i as usize as int], dirs[i].crate_name(), h, live, opts, now));
    }
    if has_unit_left(profile, live, opts, now, h) {
        let (i, c) = choose|i: usize, c: Seq<char>|
            i < dirs.len() && #[trigger] is_in_use(dirs[i as int], c, h, live, opts, now)
                && !plan::profile_removals(profile, live, opts, now).contains(
                Removal::Fingerprint(i),
            );
        lemma_current(dirs[i as int], c, h, live, opts, now);
        laws::surviving_unit_keeps_its_artifacts(profile, live, opts, now, i as int);
    }
}

/// Whether a file is one of a target that is to be pruned.
pub open spec fn is_of_pruned_target(f: Seq<char>, opts: SweepOptions) -> bool {
    exists|x: Seq<char>| #[trigger]
        plain::is_one_but_dashes(opts.prune_targets@, x) && name_laws::is_file_of(f, x)
}

/// **A file in `deps/` goes exactly with its unit**: if it is a file with a hash in
/// its name, and no unit in use with that hash is left, or it is one of a target
/// that is to be pruned.
pub proof fn deps_file_goes_with_its_unit(
    profile: ProfileListing,
    live: LiveNames,
    opts: SweepOptions,
    now: Timestamp,
    p: usize,
)
    requires
        plain::has_one_dir_for_each_hash(profile.fingerprints@),
    ensures
        plan::profile_removals(profile, live, opts, now).contains(Removal::DepsFile(p)) <==> {
            &&& p < profile.deps@.len()
            &&& profile.deps@[p as int].kind == EntryKind::File
            &&& profile.deps@[p as int].is_unicode
            &&& exists|root: Seq<char>, h: Seq<char>| #[trigger]
                plain::is_stem_of(plain::dashed(root, h), profile.deps@[p as int].name@)
                    && plain::is_hex16(h) && (!has_unit_left(profile, live, opts, now, h)
                    || is_of_pruned_target(profile.deps@[p as int].name@, opts))
        },
{
    let stock = plan::settled_stock(profile, live, opts, now);
    let prunes = units::prune_names(opts.prune_targets@);
    assert(profile.deps@.len() == profile.deps.len());
    let stale = |i: int| plan::is_stale_dep(profile.deps@[i], stock.live, prunes);
    order::lemma_picks(profile.deps@.len(), stale);
    laws::lemma_removals(profile, live, opts, now, Removal::DepsFile(p));
    assert(plan::stale_deps(profile, stock.live, prunes).contains(p) <==> p < profile.deps@.len()
        && stale(p as int));
    if p < profile.deps@.len() {
        let f = profile.deps@[p as int].name@;
        unit_laws::target_is_pruned_whatever_its_dashes(opts.prune_targets@, f, f);
        assert(sweep::is_pruned_file(f, prunes) == is_of_pruned_target(f, opts));
        if stale(p as int) {
            let h = inventory::deps_hash(f)->0;
            name_laws::hash_stands_behind_the_last_dash(f, h);
            lemma_left(profile, live, opts, now, h);
            let root = choose|root: Seq<char>|
                plain::is_stem_of(#[trigger] plain::dashed(root, h), f);
            assert(plain::is_stem_of(plain::dashed(root, h), f));
        }
        assert forall|root: Seq<char>, h: Seq<char>| #[trigger]
            plain::is_stem_of(plain::dashed(root, h), f) && plain::is_hex16(h) implies inventory::deps_hash(
            f,
        ) == Some(h) && (stock.live.contains(h) <==> has_unit_left(profile, live, opts, now, h)) by {
            name_laws::hash_stands_behind_the_last_dash(f, h);
            lemma_left(profile, live, opts, now, h);
        }
    }
}

/// **A dir in `build/` goes exactly with its unit.**
pub proof fn build_dir_goes_with_its_unit(
    profile: ProfileListing,
    live: LiveNames,
    opts: SweepOptions,
    now: Timestamp,
    p: usize,
)
    requires
        plain::has_one_dir_for_each_hash(profile.fingerprints@),
    ensures
        plan::profile_removals(profile, live, opts, now).contains(Removal::BuildDir(p)) <==> {
            &&& p < profile.build@.len()
            &&& profile.build@[p as int].kind == EntryKind::Dir
            &&& exists|c: Seq<char>, h: Seq<char>|
                profile.build@[p as int].name@ == #[trigger] plain::dashed(c, h) && c.len() > 0
                    && plain::is_hex16(h) && (!has_unit_left(profile, live, opts, now, h)
                    || plain::is_one_but_dashes(opts.prune_targets@, c))
        },
{
    let stock = plan::settled_stock(profile, live, opts, now);
    let prunes = units::prune_names(opts.prune_targets@);
    assert(profile.build@.len() == profile.build.len());
    let stale = |i: int| plan::is_stale_build(profile.build@[i], stock.live, prunes);
    order::lemma_picks(profile.build@.len(), stale);
    laws::lemma_removals(profile, live, opts, now, Removal::BuildDir(p));
    assert(plan::stale_builds(profile, stock.live, prunes).contains(p) <==> p
        < profile.build@.len() && stale(p as int));
    if p < profile.build@.len() {
        let f = profile.build@[p as int].name@;
        if stale(p as int) {
            let (c, h) = inventory::unit_parts(f)->0;
            name_laws::unit_is_told_by_its_name(f, c, h);
            lemma_left(profile, live, opts, now, h);
            unit_laws::target_is_pruned_whatever_its_dashes(opts.prune_targets@, c, c);
            assert(f == plain::dashed(c, h));
        }
        assert forall|c: Seq<char>, h: Seq<char>|
            f == #[trigger] plain::dashed(c, h) && c.len() > 0 && plain::is_hex16(h)
            implies inventory::unit_parts(f) == Some((c, h)) && (stock.live.contains(h)
            <==> has_unit_left(profile, live, opts, now, h)) && (units::is_prune_name(c, prunes)
            <==> plain::is_one_but_dashes(opts.prune_targets@, c)) by {
            name_laws::unit_is_told_by_its_name(f, c, h);
            lemma_left(profile, live, opts, now, h);
            unit_laws::target_is_pruned_whatever_its_dashes(opts.prune_targets@, c, c);
        }
    }
}

/// Whether a file belongs to something live: it is one of a live name, in either
/// form, or carries the hash of a unit that is left.
pub open spec fn belongs_to_something_live(
    profile: ProfileListing,
    live: LiveNames,
    opts: SweepOptions,
    now: Timestamp,
    f: Seq<char>,
) -> bool {
    ||| exists|x: Seq<char>| #[trigger]
        name_laws::is_file_of(f, x) && is_in_either_form(live.crates, x)
    ||| exists|c: Seq<char>, h: Seq<char>| #[trigger]
        plain::is_stem_of(plain::dashed(c, h), f) && c.len() > 0 && plain::is_hex16(h)
            && has_unit_left(profile, live, opts, now, h)
}

/// A live file belongs to something live.
proof fn lemma_live_file(
    profile: ProfileListing,
    live: LiveNames,
    opts: SweepOptions,
    now: Timestamp,
    f: Seq<char>,
)
    requires
        plain::has_one_dir_for_each_hash(profile.fingerprints@),
    ensures
        sweep::is_live_file(f, plan::settled_stock(profile, live, opts, now).live, live)
            <==> belongs_to_something_live(profile, live, opts, now, f),
{
    let hashes = plan::settled_stock(profile, live, opts, now).live;
    name_laws::file_is_live_by_hash_or_name(f, hashes, live);
    assert forall|h: Seq<char>| #[trigger] hashes.contains(h) <==> has_unit_left(
        profile,
        live,
        opts,
        now,
        h,
    ) by {
        lemma_left(profile, live, opts, now, h);
    }
    assert forall|x: Seq<char>| #[trigger] live.matches(x) <==> is_in_either_form(live.crates, x) by {
        name_laws::live_is_a_live_name_in_either_form(live, x);
    }
    if exists|x: Seq<char>| name_laws::is_file_of(f, x) && #[trigger] live.matches(x) {
        let x = choose|x: Seq<char>| name_laws::is_file_of(f, x) && #[trigger] live.matches(x);
        assert(name_laws::is_file_of(f, x) && is_in_either_form(live.crates, x));
    }
    if exists|x: Seq<char>| #[trigger]
        name_laws::is_file_of(f, x) && is_in_either_form(live.crates, x) {
        let x = choose|x: Seq<char>| #[trigger]
            name_laws::is_file_of(f, x) && is_in_either_form(live.crates, x);
        assert(live.matches(x));
    }
}

/// **A file of the profile dir or of `examples/` goes exactly if it belongs to
/// nothing live**, or to a target that is to be pruned. Cargo's lock file stays,
/// and so does what is no file.
pub proof fn file_goes_if_it_belongs_to_nothing_live(
    profile: ProfileListing,
    live: LiveNames,
    opts: SweepOptions,
    now: Timestamp,
    p: usize,
)
    requires
        plain::has_one_dir_for_each_hash(profile.fingerprints@),
    ensures
        plan::profile_removals(profile, live, opts, now).contains(Removal::TopLevelFile(p)) <==> {
            &&& p < profile.top_level@.len()
            &&& profile.top_level@[p as int].kind == EntryKind::File
            &&& profile.top_level@[p as int].is_unicode
            &&& profile.top_level@[p as int].name@ != ".cargo-lock"@
            &&& is_of_pruned_target(profile.top_level@[p as int].name@, opts)
                || !belongs_to_something_live(
                profile,
                live,
                opts,
                now,
                profile.top_level@[p as int].name@,
            )
        },
        plan::profile_removals(profile, live, opts, now).contains(Removal::ExampleFile(p)) <==> {
            &&& p < profile.examples@.len()
            &&& profile.examples@[p as int].kind == EntryKind::File
            &&& profile.examples@[p as int].is_unicode
            &&& is_of_pruned_target(profile.examples@[p as int].name@, opts)
                || !belongs_to_something_live(
                profile,
                live,
                opts,
                now,
                profile.examples@[p as int].name@,
            )
        },
{
    let stock = plan::settled_stock(profile, live, opts, now);
    let prunes = units::prune_names(opts.prune_targets@);
    assert(profile.top_level@.len() == profile.top_level.len());
    assert(profile.examples@.len() == profile.examples.len());
    let stale_top = |i: int|
        plan::is_stale_top_level(profile.top_level@[i], stock.live, live, prunes);
    let stale_example = |i: int|
        plan::is_stale_example(profile.examples@[i], stock.live, live, prunes);
    order::lemma_picks(profile.top_level@.len(), stale_top);
    order::lemma_picks(profile.examples@.len(), stale_example);
    laws::lemma_removals(profile, live, opts, now, Removal::TopLevelFile(p));
    laws::lemma_removals(profile, live, opts, now, Removal::ExampleFile(p));
    assert(plan::stale_top_level(profile, stock.live, live, prunes).contains(p) <==> p
        < profile.top_level@.len() && stale_top(p as int));
    assert(plan::stale_examples(profile, stock.live, live, prunes).contains(p) <==> p
        < profile.examples@.len() && stale_example(p as int));
    let f = profile.top_level@[p as int].name@;
    unit_laws::target_is_pruned_whatever_its_dashes(opts.prune_targets@, f, f);
    lemma_live_file(profile, live, opts, now, f);
    let g = profile.examples@[p as int].name@;
    unit_laws::target_is_pruned_whatever_its_dashes(opts.prune_targets@, g, g);
    lemma_live_file(profile, live, opts, now, g);
}

/// Whether an incremental cache is that of a crate that is to be pruned, or of one
/// that is not live. The cache of build scripts is always live.
pub open spec fn is_cache_of_nothing_live(
    cache: CacheDir,
    live: LiveNames,
    opts: SweepOptions,
) -> bool {
    exists|c: Seq<char>| #[trigger]
        is_cache_of(cache, c) && {
            ||| plain::is_one_but_dashes(opts.prune_targets@, c)
            ||| c != "build_script_build"@ && !(exists|n: Seq<char>| #[trigger]
                live.crates.contains(n) && plain::is_underscored(n, c))
        }
}

/// A stale cache is one of nothing live.
proof fn lemma_stale_cache(cache: CacheDir, live: LiveNames, opts: SweepOptions)
    ensures
        is_cache_of_nothing_live(cache, live, opts) <==> cache.cached_crate() is Some
            && plan::is_stale_cache(
            cache.cached_crate()->0,
            live,
            units::prune_names(opts.prune_targets@),
        ),
{
    let prunes = units::prune_names(opts.prune_targets@);
    if cache.cached_crate() is Some {
        let c = cache.cached_crate()->0;
        name_laws::cache_belongs_to_the_crate_before_its_last_dash(cache, c);
        name_laws::live_is_a_live_name_in_either_form(live, c);
        unit_laws::target_is_pruned_whatever_its_dashes(opts.prune_targets@, c, c);
        assert(is_cache_of(cache, c));
    }
    assert forall|c: Seq<char>| #[trigger] is_cache_of(cache, c) implies cache.cached_crate() == Some(
        c,
    ) by {
        name_laws::cache_belongs_to_the_crate_before_its_last_dash(cache, c);
    }
}

/// **A cache goes exactly if its crate is not live, or is to be pruned**, where it
/// has not gone with a doubled dependency before.
pub proof fn cache_goes_if_its_crate_is_not_live(
    profile: ProfileListing,
    live: LiveNames,
    opts: SweepOptions,
    now: Timestamp,
    p: usize,
)
    ensures
        plan::profile_removals(profile, live, opts, now).contains(Removal::Cache(p)) <==> {
            &&& p < profile.incremental@.len()
            &&& is_cache_of_nothing_live(profile.incremental@[p as int], live, opts)
            &&& !plan::profile_removals(profile, live, opts, now).contains(Removal::ZombieCache(p))
        },
{
    let prunes = units::prune_names(opts.prune_targets@);
    let zombies = plan::zombie_caches(profile, live, opts, now);
    let caches = profile.incremental@;
    let keep = opts.keep_sessions;
    let r = Removal::Cache(p);
    assert(caches.len() == profile.incremental.len());
    laws::lemma_removals(profile, live, opts, now, r);
    laws::lemma_removals(profile, live, opts, now, Removal::ZombieCache(p));
    laws::lemma_incremental(caches, caches.len(), zombies, live, prunes, keep, r);
    assert forall|at: usize| at < caches.len() && #[trigger] plan::cache_removals(
        caches[at as int],
        at,
        live,
        prunes,
        keep,
    ).contains(r) implies at == p by {
        laws::lemma_cache(caches[at as int], at, live, prunes, keep, r);
    }
    if p < caches.len() {
        lemma_stale_cache(caches[p as int], live, opts);
        laws::lemma_cache(caches[p as int], p, live, prunes, keep, r);
        let b = plan::cache_removals(caches[p as int], p, live, prunes, keep).contains(r);
    }
}

/// Whether an entry of a cache is a rustc session: a dir whose name begins with
/// `s-`.
pub open spec fn is_rustc_session(e: SessionEntry) -> bool {
    e.is_dir && exists|rest: Seq<char>| e.name@ == #[trigger] ("s-"@ + rest)
}

/// A session is told by its name.
proof fn lemma_session(e: SessionEntry)
    ensures
        plan::is_session(e) == is_rustc_session(e),
{
    reveal_strlit("s-");
    let s = e.name@;
    if plan::is_session(e) {
        assert(s =~= "s-"@ + s.skip(2));
    }
    if is_rustc_session(e) {
        let rest = choose|rest: Seq<char>| s == #[trigger] ("s-"@ + rest);
        assert(s[0] == 's' && s[1] == '-');
    }
}

/// **The older sessions go.** No session that goes was modified later than one that
/// stays; of two that were modified at one time the one listed first stays. What
/// goes is a session.
pub proof fn older_sessions_go(sessions: Seq<SessionEntry>, keep: usize, a: usize, b: usize)
    requires
        sessions.len() <= usize::MAX,
        plan::old_sessions(sessions, keep).contains(a),
    ensures
        a < sessions.len(),
        is_rustc_session(sessions[a as int]),
        b < sessions.len() && is_rustc_session(sessions[b as int]) && !plan::old_sessions(
            sessions,
            keep,
        ).contains(b) ==> {
            ||| sessions[b as int].modified.nanos > sessions[a as int].modified.nanos
            ||| sessions[b as int].modified.nanos == sessions[a as int].modified.nanos && b < a
        },
{
    let is_one = |j: int| plan::is_session(sessions[j]);
    let le = |x: usize, y: usize| plan::not_older(sessions, x, y);
    let all = order::picks(sessions.len(), is_one);
    let sorted = plan::newest_first(sessions);
    let gone = plan::old_sessions(sessions, keep);
    order::lemma_picks(sessions.len(), is_one);
    order::lemma_sorted(all, le);
    let k = choose|k: int| 0 <= k < gone.len() && gone[k] == a;
    assert(sorted[k + keep] == a);
    assert(sorted.contains(a));
    assert(all.contains(a));
    lemma_session(sessions[a as int]);
    if b < sessions.len() && is_rustc_session(sessions[b as int]) && !gone.contains(b) {
        lemma_session(sessions[b as int]);
        assert(is_one(b as int));
        assert(all.contains(b));
        assert(sorted.contains(b));
        let m = choose|m: int| 0 <= m < sorted.len() && sorted[m] == b;
        if m >= keep {
            assert(gone[m - keep] == b);
        }
        assert(le(sorted[m], sorted[k + keep]));
    }
}

/// **As many sessions stay as are to be kept**, or all if there are fewer.
pub proof fn as_many_sessions_stay_as_are_kept(sessions: Seq<SessionEntry>, keep: usize)
    requires
        sessions.len() <= usize::MAX,
    ensures
        ({
            let count = order::picks(sessions.len(), |j: int| is_rustc_session(sessions[j])).len();
            &&& plan::old_sessions(sessions, keep).no_duplicates()
            &&& plan::old_sessions(sessions, keep).len() == if count <= keep {
                0
            } else {
                count - keep
            }
        }),
{
    let is_one = |j: int| plan::is_session(sessions[j]);
    let is_rustc = |j: int| is_rustc_session(sessions[j]);
    let le = |x: usize, y: usize| plan::not_older(sessions, x, y);
    assert forall|j: int| #![trigger is_one(j)] #![trigger is_rustc(j)]
        0 <= j < sessions.len() implies is_one(j) == is_rustc(j) by {
        lemma_session(sessions[j]);
    }
    order::lemma_picks_agree(sessions.len(), is_one, is_rustc);
    let all = order::picks(sessions.len(), is_one);
    let sorted = plan::newest_first(sessions);
    order::lemma_picks(sessions.len(), is_one);
    order::lemma_sorted(all, le);
    assert(all.no_duplicates());
    assert(sorted.no_duplicates()) by {
        all.lemma_sort_by_ensures(le);
        all.lemma_multiset_has_no_duplicates();
        assert(sorted.to_multiset() == all.to_multiset());
        sorted.lemma_multiset_has_no_duplicates_conv();
    }
}

/// **Sessions go from caches that stay**, and each takes its lock file with it.
pub proof fn sessions_go_from_caches_that_stay(
    profile: ProfileListing,
    live: LiveNames,
    opts: SweepOptions,
    now: Timestamp,
    p: usize,
    a: usize,
)
    ensures
        ({
            let removals = plan::profile_removals(profile, live, opts, now);
            let caches = profile.incremental@;
            &&& removals.contains(Removal::Session { cache: p, session: a }) <==> {
                &&& p < caches.len()
                &&& exists|c: Seq<char>| #[trigger] is_cache_of(caches[p as int], c)
                &&& !removals.contains(Removal::Cache(p))
                &&& !removals.contains(Removal::ZombieCache(p))
                &&& plan::old_sessions(caches[p as int].sessions@, opts.keep_sessions).contains(a)
            }
            &&& removals.contains(Removal::SessionLock { cache: p, session: a }) <==> {
                &&& removals.contains(Removal::Session { cache: p, session: a })
                &&& caches[p as int].sessions@[a as int].has_lock
            }
        }),
{
    let prunes = units::prune_names(opts.prune_targets@);
    let zombies = plan::zombie_caches(profile, live, opts, now);
    let caches = profile.incremental@;
    let keep = opts.keep_sessions;
    let r = Removal::Session { cache: p, session: a };
    let l = Removal::SessionLock { cache: p, session: a };
    assert(caches.len() == profile.incremental.len());
    cache_goes_if_its_crate_is_not_live(profile, live, opts, now, p);
    laws::lemma_removals(profile, live, opts, now, r);
    laws::lemma_removals(profile, live, opts, now, l);
    laws::lemma_removals(profile, live, opts, now, Removal::ZombieCache(p));
    laws::lemma_incremental(caches, caches.len(), zombies, live, prunes, keep, r);
    laws::lemma_incremental(caches, caches.len(), zombies, live, prunes, keep, l);
    assert forall|at: usize| at < caches.len() && #[trigger] plan::cache_removals(
        caches[at as int],
        at,
        live,
        prunes,
        keep,
    ).contains(r) implies at == p by {
        laws::lemma_cache(caches[at as int], at, live, prunes, keep, r);
    }
    assert forall|at: usize| at < caches.len() && #[trigger] plan::cache_removals(
        caches[at as int],
        at,
        live,
        prunes,
        keep,
    ).contains(l) implies at == p by {
        laws::lemma_cache(caches[at as int], at, live, prunes, keep, l);
    }
    if p < caches.len() {
        let cache = caches[p as int];
        lemma_stale_cache(cache, live, opts);
        laws::lemma_cache(cache, p, live, prunes, keep, r);
        laws::lemma_cache(cache, p, live, prunes, keep, l);
        let b = plan::cache_removals(caches[p as int], p, live, prunes, keep).contains(r);
        let b = plan::cache_removals(caches[p as int], p, live, prunes, keep).contains(l);
        if cache.cached_crate() is Some {
            let c = cache.cached_crate()->0;
            name_laws::cache_belongs_to_the_crate_before_its_last_dash(cache, c);
            assert(is_cache_of(cache, c));
        }
        assert forall|c: Seq<char>| #[trigger] is_cache_of(cache, c) implies cache.cached_crate()
            == Some(c) by {
            name_laws::cache_belongs_to_the_crate_before_its_last_dash(cache, c);
        }
    }
}

/// **Fingerprint dirs go last, and the caches of a superseded workspace first.**
pub proof fn fingerprints_go_last(
    profile: ProfileListing,
    live: LiveNames,
    opts: SweepOptions,
    now: Timestamp,
    a: int,
    b: int,
)
    requires
        0 <= a < b < plan::profile_removals(profile, live, opts, now).len(),
    ensures
        ({
            let removals = plan::profile_removals(profile, live, opts, now);
            &&& removals[a] is Fingerprint ==> removals[b] is Fingerprint
            &&& removals[b] is ZombieCache ==> removals[a] is ZombieCache
        }),
{
    let removals = plan::profile_removals(profile, live, opts, now);
    let stock = plan::settled_stock(profile, live, opts, now);
    let prunes = units::prune_names(opts.prune_targets@);
    let z = plan::zombie_caches(profile, live, opts, now);
    let caches = plan::incremental_removals(
        profile.incremental@,
        profile.incremental@.len(),
        z,
        live,
        prunes,
        opts.keep_sessions,
    );
    let first = z.map_values(|i: usize| Removal::ZombieCache(i));
    let last = stock.stale.map_values(|i: usize| Removal::Fingerprint(i));
    let deps = plan::stale_deps(profile, stock.live, prunes).map_values(
        |i: usize| Removal::DepsFile(i),
    );
    let builds = plan::stale_builds(profile, stock.live, prunes).map_values(
        |i: usize| Removal::BuildDir(i),
    );
    let tops = plan::stale_top_level(profile, stock.live, live, prunes).map_values(
        |i: usize| Removal::TopLevelFile(i),
    );
    let examples = plan::stale_examples(profile, stock.live, live, prunes).map_values(
        |i: usize| Removal::ExampleFile(i),
    );
    let middle = deps + builds + caches + tops + examples;
    assert(removals =~= first + middle + last);
    assert forall|k: int| 0 <= k < caches.len() implies !((#[trigger] caches[k]) is Fingerprint)
        && !(caches[k] is ZombieCache) by {
        lemma_cache_removal(profile, z, live, prunes, opts.keep_sessions, caches[k]);
    }
    assert forall|k: int| 0 <= k < middle.len() implies !((#[trigger] middle[k]) is Fingerprint)
        && !(middle[k] is ZombieCache) by {
        let d = deps.len() as int;
        let e = d + builds.len();
        let f = e + caches.len();
        let g = f + tops.len();
        if k < d {
            assert(middle[k] == deps[k]);
        } else if k < e {
            assert(middle[k] == builds[k - d]);
        } else if k < f {
            assert(middle[k] == caches[k - e]);
        } else if k < g {
            assert(middle[k] == tops[k - f]);
        } else {
            assert(middle[k] == examples[k - g]);
        }
    }
    let m = first.len() as int;
    let n = m + middle.len();
    assert forall|k: int| 0 <= k < removals.len() implies (#[trigger] removals[k] is ZombieCache <==> k
        < m) && (removals[k] is Fingerprint <==> k >= n) by {
        if k < m {
            assert(removals[k] == first[k]);
        } else if k < n {
            assert(removals[k] == middle[k - m]);
        } else {
            assert(removals[k] == last[k - n]);
        }
    }
}

/// What the sweep of `incremental/` removes.
proof fn lemma_cache_removal(
    profile: ProfileListing,
    missing: Seq<usize>,
    live: LiveNames,
    prunes: Set<Seq<char>>,
    keep: usize,
    r: Removal,
)
    requires
        plan::incremental_removals(
            profile.incremental@,
            profile.incremental@.len(),
            missing,
            live,
            prunes,
            keep,
        ).contains(r),
    ensures
        r is Cache || r is Session || r is SessionLock,
{
    let caches = profile.incremental@;
    assert(caches.len() == profile.incremental.len());
    laws::lemma_incremental(caches, caches.len(), missing, live, prunes, keep, r);
    let at = choose|at: usize|
        at < caches.len() && !missing.contains(at) && #[trigger] plan::cache_removals(
            caches[at as int],
            at,
            live,
            prunes,
            keep,
        ).contains(r);
    laws::lemma_cache(caches[at as int], at, live, prunes, keep, r);
}

/// Whether the hash `h` is that of a unit of a target that is to be pruned.
pub open spec fn is_hash_of_pruned(
    dirs: Seq<FingerprintDir>,
    opts: SweepOptions,
    h: Seq<char>,
) -> bool {
    exists|i: int, c: Seq<char>|
        0 <= i < dirs.len() && #[trigger] plain::is_unit_of(dirs[i], c, h)
            && plain::is_one_but_dashes(opts.prune_targets@, c)
}

/// The hashes of pruned units.
proof fn lemma_hash_of_pruned(dirs: Seq<FingerprintDir>, opts: SweepOptions, h: Seq<char>)
    ensures
        units::is_pruned_hash(dirs, units::prune_names(opts.prune_targets@), h)
            <==> is_hash_of_pruned(dirs, opts, h),
{
    let prunes = units::prune_names(opts.prune_targets@);
    if units::is_pruned_hash(dirs, prunes, h) {
        let i = choose|i: int|
            0 <= i < dirs.len() && #[trigger] units::is_pruned(dirs[i], prunes) && dirs[i].hash()
                == h;
        let c = dirs[i].crate_name();
        name_laws::fingerprint_dir_is_told_by_its_name(dirs[i], c, h);
        unit_laws::target_is_pruned_whatever_its_dashes(opts.prune_targets@, c, c);
        assert(plain::is_unit_of(dirs[i], c, h));
    }
    if is_hash_of_pruned(dirs, opts, h) {
        let (i, c) = choose|i: int, c: Seq<char>|
            0 <= i < dirs.len() && #[trigger] plain::is_unit_of(dirs[i], c, h)
                && plain::is_one_but_dashes(opts.prune_targets@, c);
        name_laws::fingerprint_dir_is_told_by_its_name(dirs[i], c, h);
        unit_laws::target_is_pruned_whatever_its_dashes(opts.prune_targets@, c, c);
        assert(units::is_pruned(dirs[i], prunes));
    }
}

/// **Of a profile that the sweep does not cover, the pruned targets go and nothing
/// else**: their units, what carries a hash of these or their name in `deps/` and
/// `build/`, their files and their caches.
pub proof fn pruned_targets_go_and_nothing_else(
    profile: ProfileListing,
    opts: SweepOptions,
    p: usize,
    a: usize,
)
    ensures
        ({
            let removals = plan::pruned_removals(profile, opts);
            let dirs = profile.fingerprints@;
            let targets = opts.prune_targets@;
            &&& removals.contains(Removal::Fingerprint(p)) <==> p < dirs.len() && exists|
                c: Seq<char>,
                h: Seq<char>,
            | #[trigger]
                plain::is_unit_of(dirs[p as int], c, h) && plain::is_one_but_dashes(targets, c)
            &&& removals.contains(Removal::DepsFile(p)) <==> {
                &&& p < profile.deps@.len()
                &&& profile.deps@[p as int].kind == EntryKind::File
                &&& profile.deps@[p as int].is_unicode
                &&& exists|root: Seq<char>, h: Seq<char>| #[trigger]
                    plain::is_stem_of(plain::dashed(root, h), profile.deps@[p as int].name@)
                        && plain::is_hex16(h) && (is_hash_of_pruned(dirs, opts, h)
                        || is_of_pruned_target(profile.deps@[p as int].name@, opts))
            }
            &&& removals.contains(Removal::BuildDir(p)) <==> {
                &&& p < profile.build@.len()
                &&& profile.build@[p as int].kind == EntryKind::Dir
                &&& exists|c: Seq<char>, h: Seq<char>|
                    profile.build@[p as int].name@ == #[trigger] plain::dashed(c, h) && c.len() > 0
                        && plain::is_hex16(h) && (is_hash_of_pruned(dirs, opts, h)
                        || plain::is_one_but_dashes(targets, c))
            }
            &&& removals.contains(Removal::TopLevelFile(p)) <==> {
                &&& p < profile.top_level@.len()
                &&& profile.top_level@[p as int].kind == EntryKind::File
                &&& profile.top_level@[p as int].is_unicode
                &&& profile.top_level@[p as int].name@ != ".cargo-lock"@
                &&& is_of_pruned_target(profile.top_level@[p as int].name@, opts)
            }
            &&& removals.contains(Removal::ExampleFile(p)) <==> {
                &&& p < profile.examples@.len()
                &&& profile.examples@[p as int].kind == EntryKind::File
                &&& profile.examples@[p as int].is_unicode
                &&& is_of_pruned_target(profile.examples@[p as int].name@, opts)
            }
            &&& removals.contains(Removal::Cache(p)) <==> p < profile.incremental@.len() && exists|
                c: Seq<char>,
            | #[trigger]
                is_cache_of(profile.incremental@[p as int], c) && plain::is_one_but_dashes(
                    targets,
                    c,
                )
            &&& !removals.contains(Removal::ZombieCache(p))
            &&& !removals.contains(Removal::Session { cache: p, session: a })
            &&& !removals.contains(Removal::SessionLock { cache: p, session: a })
        }),
{
    let prunes = units::prune_names(opts.prune_targets@);
    let targets = opts.prune_targets@;
    let dirs = profile.fingerprints@;
    let kept = plan::unpruned_hashes(profile, prunes);
    laws::lemma_pruned_removals(profile, opts, Removal::Fingerprint(p));
    laws::lemma_pruned_removals(profile, opts, Removal::DepsFile(p));
    laws::lemma_pruned_removals(profile, opts, Removal::BuildDir(p));
    laws::lemma_pruned_removals(profile, opts, Removal::TopLevelFile(p));
    laws::lemma_pruned_removals(profile, opts, Removal::ExampleFile(p));
    laws::lemma_pruned_removals(profile, opts, Removal::Cache(p));
    laws::lemma_pruned_removals(profile, opts, Removal::ZombieCache(p));
    laws::lemma_pruned_removals(profile, opts, Removal::Session { cache: p, session: a });
    laws::lemma_pruned_removals(profile, opts, Removal::SessionLock { cache: p, session: a });
    assert forall|c: Seq<char>| #[trigger] plain::is_one_but_dashes(targets, c)
        == units::is_prune_name(c, prunes) by {
        unit_laws::target_is_pruned_whatever_its_dashes(targets, c, c);
    }
    if p < dirs.len() {
        let d = dirs[p as int];
        name_laws::fingerprint_dir_is_told_by_its_name(d, d.crate_name(), d.hash());
        assert forall|c: Seq<char>, h: Seq<char>| #[trigger] plain::is_unit_of(d, c, h)
            implies d.unit() == Some((c, h)) by {
            name_laws::fingerprint_dir_is_told_by_its_name(d, c, h);
        }
        let b = plain::is_one_but_dashes(targets, d.crate_name());
    }
    if p < profile.deps@.len() {
        let f = profile.deps@[p as int].name@;
        unit_laws::target_is_pruned_whatever_its_dashes(targets, f, f);
        if inventory::deps_hash(f) is Some {
            let h = inventory::deps_hash(f)->0;
            name_laws::hash_stands_behind_the_last_dash(f, h);
            lemma_hash_of_pruned(dirs, opts, h);
            let root = choose|root: Seq<char>|
                plain::is_stem_of(#[trigger] plain::dashed(root, h), f);
            assert(plain::is_stem_of(plain::dashed(root, h), f));
        }
        assert forall|root: Seq<char>, h: Seq<char>| #[trigger]
            plain::is_stem_of(plain::dashed(root, h), f) && plain::is_hex16(h)
            implies inventory::deps_hash(f) == Some(h) by {
            name_laws::hash_stands_behind_the_last_dash(f, h);
        }
    }
    if p < profile.build@.len() {
        let f = profile.build@[p as int].name@;
        if inventory::unit_parts(f) is Some {
            let (c, h) = inventory::unit_parts(f)->0;
            name_laws::unit_is_told_by_its_name(f, c, h);
            lemma_hash_of_pruned(dirs, opts, h);
            assert(f == plain::dashed(c, h));
            let b = plain::is_one_but_dashes(targets, c);
        }
        assert forall|c: Seq<char>, h: Seq<char>|
            f == #[trigger] plain::dashed(c, h) && c.len() > 0 && plain::is_hex16(h)
            implies inventory::unit_parts(f) == Some((c, h)) by {
            name_laws::unit_is_told_by_its_name(f, c, h);
        }
    }
    let f = profile.top_level@[p as int].name@;
    unit_laws::target_is_pruned_whatever_its_dashes(targets, f, f);
    let g = profile.examples@[p as int].name@;
    unit_laws::target_is_pruned_whatever_its_dashes(targets, g, g);
    if p < profile.incremental@.len() {
        let cache = profile.incremental@[p as int];
        if cache.cached_crate() is Some {
            let c = cache.cached_crate()->0;
            name_laws::cache_belongs_to_the_crate_before_its_last_dash(cache, c);
            assert(is_cache_of(cache, c));
            let b = plain::is_one_but_dashes(targets, c);
        }
        assert forall|c: Seq<char>| #[trigger] is_cache_of(cache, c) implies cache.cached_crate()
            == Some(c) by {
            name_laws::cache_belongs_to_the_crate_before_its_last_dash(cache, c);
        }
    }
}

/// Whether an entry of a target dir is a profile dir: a dir with a `.fingerprint/`
/// in it, whose name does not begin with a dot and is not one that cargo uses
/// otherwise.
pub open spec fn is_profile_dir(e: TargetEntry) -> bool {
    &&& e.is_dir
    &&& e.has_fingerprint
    &&& !exists|rest: Seq<char>| e.name@ == #[trigger] ("."@ + rest)
    &&& e.name@ != "doc"@
    &&& e.name@ != "package"@
    &&& e.name@ != "tmp"@
}

/// **A profile dir is told by its `.fingerprint/`.**
pub proof fn profile_dir_is_told_by_its_fingerprints(e: TargetEntry)
    ensures
        target_dir::is_profile(e) <==> is_profile_dir(e),
{
    reveal_strlit(".");
    let s = e.name@;
    if s.len() > 0 && s[0] == '.' {
        assert(s =~= "."@ + s.skip(1));
    }
    if exists|rest: Seq<char>| s == #[trigger] ("."@ + rest) {
        let rest = choose|rest: Seq<char>| s == #[trigger] ("."@ + rest);
        assert(s[0] == '.');
    }
}

/// **A run visits each profile dir, or the one that is asked for**, and with
/// targets to prune every one; but none that is wiped. In one that is not asked
/// for it prunes and does nothing else.
pub proof fn run_visits_the_profile_that_is_asked_for(
    dir: ProfileDir,
    live: LiveNames,
    opts: SweepOptions,
    now: Timestamp,
)
    ensures
        sweep::is_visited(dir.entry, opts) <==> {
            &&& is_profile_dir(dir.entry)
            &&& forall|i: int|
                0 <= i < opts.prune_profiles@.len() ==> sweep::spelled_profile(
                    #[trigger] opts.prune_profiles@[i]@,
                ) != dir.entry.name@
            &&& opts.only_profile is None || (opts.only_profile->0)@ == dir.entry.name@
                || opts.prune_targets@.len() > 0
        },
        opts.only_profile is None || (opts.only_profile->0)@ == dir.entry.name@
            ==> sweep::entry_removals(dir, live, opts, now) == plan::profile_removals(
            dir.listing,
            live,
            opts,
            now,
        ),
        opts.only_profile is Some && (opts.only_profile->0)@ != dir.entry.name@
            ==> sweep::entry_removals(dir, live, opts, now) == plan::pruned_removals(
            dir.listing,
            opts,
        ),
{
    profile_dir_is_told_by_its_fingerprints(dir.entry);
}

/// **A profile to be wiped is wiped once.** The places are those of the dirs that
/// exist and that no earlier place spells, in order.
pub proof fn profiles_are_wiped_once(opts: SweepOptions, is_dir: Seq<bool>, i: usize)
    requires
        is_dir.len() == opts.prune_profiles@.len(),
        is_dir.len() <= usize::MAX,
    ensures
        sweep::wiped_places(opts, is_dir).contains(i) <==> i < is_dir.len() && is_dir[i as int]
            && forall|j: int|
            0 <= j < i ==> sweep::spelled_profile(#[trigger] opts.prune_profiles@[j]@)
                != sweep::spelled_profile(opts.prune_profiles@[i as int]@),
        forall|a: int, b: int|
            0 <= a < b < sweep::wiped_places(opts, is_dir).len()
                ==> #[trigger] sweep::wiped_places(opts, is_dir)[a]
                < #[trigger] sweep::wiped_places(opts, is_dir)[b],
{
    let wiped = |i: int| is_dir[i] && !sweep::is_spelled_before(opts.prune_profiles@, i);
    order::lemma_picks(is_dir.len(), wiped);
    assert(order::picks(is_dir.len(), wiped).contains(i) <==> i < is_dir.len() && wiped(i as int));
}

/// **Profiles are listed by name, each once.**
pub proof fn profiles_are_listed_by_name(entries: Seq<TargetEntry>, i: usize, a: int, b: int)
    requires
        entries.len() <= usize::MAX,
    ensures
        ({
            let list = target_dir::profiles_by_name(entries);
            &&& list.contains(i) <==> i < entries.len() && is_profile_dir(entries[i as int])
            &&& 0 <= a < b < list.len() ==> list[a] != list[b] && text::text_le(
                entries[list[a] as int].name@,
                entries[list[b] as int].name@,
            )
        }),
{
    let profile = |k: int| target_dir::is_profile(entries[k]);
    let le = |x: usize, y: usize| target_dir::named_no_later(entries, x, y);
    let all = order::picks(entries.len(), profile);
    let list = target_dir::profiles_by_name(entries);
    order::lemma_picks(entries.len(), profile);
    target_dir::lemma_total(entries);
    order::lemma_sorted(all, le);
    if i < entries.len() {
        profile_dir_is_told_by_its_fingerprints(entries[i as int]);
    }
    assert(all.contains(i) <==> i < entries.len() && profile(i as int));
    assert(list.no_duplicates()) by {
        all.lemma_sort_by_ensures(le);
        all.lemma_multiset_has_no_duplicates();
        list.lemma_multiset_has_no_duplicates_conv();
    }
    if 0 <= a < b < list.len() {
        assert(le(list[a], list[b]));
        let x = entries[list[a] as int].name@;
        text::text_order(x, x, x);
    }
}

/// **The inventory lists what is in use and what is not.** A hash is in use if it is
/// that of a live crate's unit that is not too old; every other unit goes.
pub proof fn inventory_lists_what_is_in_use(
    dirs: Seq<FingerprintDir>,
    live: LiveNames,
    opts: SweepOptions,
    now: Timestamp,
    h: Seq<char>,
    i: usize,
)
    requires
        dirs.len() <= usize::MAX,
    ensures
        ({
            let stock = inventory::taken_stock(dirs, live, opts.max_age_cutoff, now);
            &&& stock.live.contains(h) <==> exists|k: int, c: Seq<char>|
                0 <= k < dirs.len() && #[trigger] is_in_use(dirs[k], c, h, live, opts, now)
            &&& stock.stale.contains(i) <==> i < dirs.len() && dirs[i as int].is_unicode && exists|
                c: Seq<char>,
                g: Seq<char>,
            | #[trigger]
                plain::is_unit_of(dirs[i as int], c, g) && (!live.crates.contains(c)
                    || plain::is_too_old(dirs[i as int], opts.max_age_cutoff, now))
        }),
{
    let cutoff = opts.max_age_cutoff;
    let stock = inventory::taken_stock(dirs, live, cutoff, now);
    let current = |k: int| dirs[k].is_current(live, cutoff, now);
    let outdated = |k: int| dirs[k].is_listed() && !dirs[k].is_current(live, cutoff, now);
    order::lemma_picks(dirs.len(), outdated);
    if stock.live.contains(h) {
        let k = choose|k: int| 0 <= k < dirs.len() && #[trigger] current(k) && h == dirs[k].hash();
        lemma_current(dirs[k], dirs[k].crate_name(), h, live, opts, now);
        assert(is_in_use(dirs[k], dirs[k].crate_name(), h, live, opts, now));
    }
    if exists|k: int, c: Seq<char>|
        0 <= k < dirs.len() && #[trigger] is_in_use(dirs[k], c, h, live, opts, now) {
        let (k, c) = choose|k: int, c: Seq<char>|
            0 <= k < dirs.len() && #[trigger] is_in_use(dirs[k], c, h, live, opts, now);
        lemma_current(dirs[k], c, h, live, opts, now);
        assert(current(k));
    }
    assert(stock.stale.contains(i) <==> i < dirs.len() && outdated(i as int));
    if i < dirs.len() {
        let d = dirs[i as int];
        lemma_current(d, d.crate_name(), d.hash(), live, opts, now);
        assert forall|c: Seq<char>, g: Seq<char>| #[trigger] plain::is_unit_of(d, c, g)
            implies d.unit() == Some((c, g)) by {
            name_laws::fingerprint_dir_is_told_by_its_name(d, c, g);
        }
        if outdated(i as int) {
            assert(plain::is_unit_of(d, d.crate_name(), d.hash()));
        }
    }
}

/// **The caches that are left are those that do not go.**
pub proof fn caches_left_are_those_that_do_not_go(
    profile: ProfileListing,
    live: LiveNames,
    opts: SweepOptions,
    now: Timestamp,
    p: usize,
)
    ensures
        plan::caches_left(profile, live, opts, now).contains(p) <==> {
            &&& p < profile.incremental@.len()
            &&& exists|c: Seq<char>| #[trigger] is_cache_of(profile.incremental@[p as int], c)
            &&& !plan::profile_removals(profile, live, opts, now).contains(Removal::Cache(p))
            &&& !plan::profile_removals(profile, live, opts, now).contains(Removal::ZombieCache(p))
        },
{
    let prunes = units::prune_names(opts.prune_targets@);
    let zombies = plan::zombie_caches(profile, live, opts, now);
    let caches = profile.incremental@;
    assert(caches.len() == profile.incremental.len());
    let left = |i: int|
        !zombies.contains(i as usize) && (caches[i].cached_crate() matches Some(name)
            && !plan::is_stale_cache(name, live, prunes));
    order::lemma_picks(caches.len(), left);
    cache_goes_if_its_crate_is_not_live(profile, live, opts, now, p);
    laws::lemma_removals(profile, live, opts, now, Removal::ZombieCache(p));
    assert(plan::caches_left(profile, live, opts, now).contains(p) <==> p < caches.len() && left(
        p as int,
    ));
    if p < caches.len() {
        let cache = caches[p as int];
        lemma_stale_cache(cache, live, opts);
        if cache.cached_crate() is Some {
            let c = cache.cached_crate()->0;
            name_laws::cache_belongs_to_the_crate_before_its_last_dash(cache, c);
            assert(is_cache_of(cache, c));
        }
        assert forall|c: Seq<char>| #[trigger] is_cache_of(cache, c) implies cache.cached_crate()
            == Some(c) by {
            name_laws::cache_belongs_to_the_crate_before_its_last_dash(cache, c);
        }
    }
}

/// **The regular sweep covers the profile that is asked for**, or all.
pub proof fn sweep_covers_the_profile_that_is_asked_for(e: TargetEntry, opts: SweepOptions)
    ensures
        sweep::is_in_scope(e, opts) <==> opts.only_profile is None || (opts.only_profile->0)@
            == e.name@,
{
}

/// **A note tells of a unit with several dirs**, at the first of them: how many go of
/// a workspace member's, and that all go of a dependency's. Of other dirs there is
/// nothing to tell.
pub proof fn note_tells_of_a_unit_with_several_dirs(
    dirs: Seq<FingerprintDir>,
    live: LiveNames,
    hashes: Set<Seq<char>>,
    i: int,
    c: Seq<char>,
    g: Seq<char>,
)
    requires
        dirs.len() <= usize::MAX,
        0 <= i < dirs.len(),
        plain::is_unit_of(dirs[i], c, g),
    ensures
        ({
            let unit = order::picks(dirs.len(), |j: int| is_companion(dirs, hashes, c, i, j));
            let note = units::unit_note(dirs, live, hashes, i);
            if !hashes.contains(g) || units::unit_key(dirs[i].files@) is None || unit.len() <= 1 || (
            exists|j: int| 0 <= j < i && #[trigger] is_companion(dirs, hashes, c, i, j)) {
                note is None
            } else if live.members.contains(c) {
                note == Some(Note::KeptNewest { entry: i as usize, demoted: (unit.len() - 1) as usize })
            } else {
                note == Some(Note::RemovedAll { entry: i as usize, count: unit.len() as usize })
            }
        }),
{
    let raw = |j: int| is_companion(dirs, hashes, c, i, j);
    let told = |j: int| units::is_candidate(dirs[j], hashes) && units::same_unit(dirs[i], dirs[j]);
    name_laws::fingerprint_dir_is_told_by_its_name(dirs[i], c, g);
    if hashes.contains(g) && units::unit_key(dirs[i].files@) is Some {
        assert forall|j: int| #![trigger raw(j)] #![trigger told(j)]
            0 <= j < dirs.len() implies raw(j) == told(j) by {
            let d = dirs[j];
            name_laws::fingerprint_dir_is_told_by_its_name(d, c, d.hash());
            if raw(j) {
                let h = choose|h: Seq<char>| #[trigger]
                    plain::is_unit_of(d, c, h) && hashes.contains(h);
                name_laws::fingerprint_dir_is_told_by_its_name(d, c, h);
            }
            if told(j) {
                assert(plain::is_unit_of(d, c, d.hash()) && hashes.contains(d.hash()));
            }
        }
        order::lemma_picks_agree(dirs.len(), raw, told);
        order::lemma_picks(dirs.len(), raw);
        let unit = order::picks(dirs.len(), raw);
        assert(units::companions(dirs, hashes, i) == unit);
        assert(told(i));
        assert(raw(i));
        assert(unit.contains(i as usize));
        let at = choose|at: int| 0 <= at < unit.len() && unit[at] == i as usize;
        if exists|j: int| 0 <= j < i && #[trigger] is_companion(dirs, hashes, c, i, j) {
            let j = choose|j: int| 0 <= j < i && #[trigger] is_companion(dirs, hashes, c, i, j);
            assert(raw(j));
            assert(unit.contains(j as usize));
            let k = choose|k: int| 0 <= k < unit.len() && unit[k] == j as usize;
            if k > 0 {
                assert(unit[0] < unit[k]);
            }
            assert(unit[0] != i);
        } else if at > 0 {
            assert(unit[0] < unit[at]);
            assert(raw(unit[0] as int));
            assert(is_companion(dirs, hashes, c, i, unit[0] as int));
        }
    }
}

/// Whether the dir at `j` is one of the crate `c` with one of the hashes, and records
/// the same target and profile as the one at `i`.
pub open spec fn is_companion(
    dirs: Seq<FingerprintDir>,
    hashes: Set<Seq<char>>,
    c: Seq<char>,
    i: int,
    j: int,
) -> bool {
    &&& exists|h: Seq<char>| #[trigger] plain::is_unit_of(dirs[j], c, h) && hashes.contains(h)
    &&& has_same_record(dirs[i], dirs[j])
}

/// **The notes tell of every unit once, and then of the workspace that goes with a
/// doubled dependency.**
pub proof fn notes_tell_of_units_and_zombies(
    profile: ProfileListing,
    live: LiveNames,
    opts: SweepOptions,
    now: Timestamp,
    i: usize,
)
    requires
        plain::has_one_dir_for_each_hash(profile.fingerprints@),
    ensures
        ({
            let dirs = profile.fingerprints@;
            let stock = laws::taken(profile, live, opts, now);
            let notes = units::dedup_notes(dirs, live, stock);
            &&& i < dirs.len() ==> (units::unit_note(dirs, live, stock.live, i as int) matches Some(
                note,
            ) ==> notes.contains(note))
            &&& notes.contains(Note::Zombie(i)) <==> {
                &&& i < dirs.len()
                &&& has_doubled_dependency(dirs, live, opts, now)
                &&& exists|e: Seq<char>, f: Seq<char>| #[trigger]
                    is_in_use(dirs[i as int], e, f, live, opts, now) && live.members.contains(e)
                        && !exists|j: int, g: Seq<char>|
                        0 <= j < dirs.len() && j != i && #[trigger] is_in_use(
                            dirs[j],
                            e,
                            g,
                            live,
                            opts,
                            now,
                        ) && has_same_record(dirs[i as int], dirs[j]) && plain::is_later_dir(
                            dirs,
                            j,
                            i as int,
                        )
            }
        }),
{
    let dirs = profile.fingerprints@;
    let n = dirs.len();
    assert(n == profile.fingerprints.len());
    let stock = laws::taken(profile, live, opts, now);
    let rest = units::without_demoted(dirs, live, stock).live;
    let notes = units::dedup_notes(dirs, live, stock);
    let told = units::unit_notes(dirs, live, stock.live, n);
    let zombie = |k: int| units::is_zombie(dirs, live, rest, k);
    let tell = |k: usize| Note::Zombie(k);
    let zombies = if units::dependency_demoted(dirs, live, stock.live) {
        order::picks(n, zombie).map_values(tell)
    } else {
        Seq::empty()
    };
    assert(notes =~= told + zombies);
    lemma_distinct(dirs);
    lemma_doubled(profile, live, opts, now);
    order::lemma_picks(n, zombie);
    let z = Note::Zombie(i);
    order::lemma_concat_contains(told, zombies, z);
    lemma_no_zombie_among_units(dirs, live, stock.live, n, i);
    assert(order::picks(n, zombie).map_values(tell).contains(z) <==> order::picks(n, zombie).contains(
        i,
    )) by {
        let picked = order::picks(n, zombie);
        let all = picked.map_values(tell);
        if all.contains(z) {
            let k = choose|k: int| 0 <= k < all.len() && all[k] == z;
            assert(picked[k] == i);
        }
        if picked.contains(i) {
            let k = choose|k: int| 0 <= k < picked.len() && picked[k] == i;
            assert(all[k] == z);
        }
    }
    assert(order::picks(n, zombie).contains(i) <==> i < n && zombie(i as int));
    if i < n {
        let d = dirs[i as int];
        lemma_zombie(profile, live, opts, now, i as int);
        lemma_current(d, d.crate_name(), d.hash(), live, opts, now);
        assert forall|e: Seq<char>, f: Seq<char>| #[trigger] is_in_use(d, e, f, live, opts, now)
            implies d.is_current(live, opts.max_age_cutoff, now) && e == d.crate_name() by {
            lemma_current(d, e, f, live, opts, now);
        }
        let e = d.crate_name();
        if d.is_current(live, opts.max_age_cutoff, now) && live.members.contains(e) {
            assert(is_in_use(d, e, d.hash(), live, opts, now));
            lemma_own_hash(profile, live, opts, now, i as int);
            if units::is_demoted(dirs, live, stock.live, i as int) {
                let j = choose|j: int|
                    0 <= j < n && j != i && #[trigger] units::is_candidate(dirs[j], stock.live)
                        && units::same_unit(d, dirs[j]) && units::is_newer(dirs, j, i as int);
                lemma_own_hash(profile, live, opts, now, j);
                lemma_current(dirs[j], e, dirs[j].hash(), live, opts, now);
                assert(is_in_use(dirs[j], e, dirs[j].hash(), live, opts, now));
            }
            assert forall|j: int, g: Seq<char>|
                0 <= j < n && j != i && #[trigger] is_in_use(dirs[j], e, g, live, opts, now)
                    && has_same_record(d, dirs[j]) && plain::is_later_dir(dirs, j, i as int)
                implies units::is_demoted(dirs, live, stock.live, i as int) by {
                lemma_rivals(profile, live, opts, now, i as int, j, e, d.hash(), g);
            }
        }
        if units::unit_note(dirs, live, stock.live, i as int) is Some {
            let note = units::unit_note(dirs, live, stock.live, i as int)->0;
            lemma_unit_note_is_told(dirs, live, stock.live, n, i as int);
            order::lemma_concat_contains(told, zombies, note);
        }
    }
}

/// The notes of units tell of no zombies.
proof fn lemma_no_zombie_among_units(
    dirs: Seq<FingerprintDir>,
    live: LiveNames,
    hashes: Set<Seq<char>>,
    n: nat,
    i: usize,
)
    ensures
        !units::unit_notes(dirs, live, hashes, n).contains(Note::Zombie(i)),
    decreases n,
{
    if n > 0 {
        lemma_no_zombie_among_units(dirs, live, hashes, (n - 1) as nat, i);
        let before = units::unit_notes(dirs, live, hashes, (n - 1) as nat);
        match units::unit_note(dirs, live, hashes, n - 1) {
            Some(note) => {
                assert(before.push(note) =~= before + seq![note]);
                order::lemma_concat_contains(before, seq![note], Note::Zombie(i));
                assert(seq![note].contains(Note::Zombie(i)) ==> note == Note::Zombie(i));
            },
            None => {},
        }
    }
}

/// What there is to tell of an entry is told.
proof fn lemma_unit_note_is_told(
    dirs: Seq<FingerprintDir>,
    live: LiveNames,
    hashes: Set<Seq<char>>,
    n: nat,
    i: int,
)
    requires
        0 <= i < n,
        units::unit_note(dirs, live, hashes, i) is Some,
    ensures
        units::unit_notes(dirs, live, hashes, n).contains(
            units::unit_note(dirs, live, hashes, i)->0,
        ),
    decreases n,
{
    let note = units::unit_note(dirs, live, hashes, i)->0;
    let before = units::unit_notes(dirs, live, hashes, (n - 1) as nat);
    if i < n - 1 {
        lemma_unit_note_is_told(dirs, live, hashes, (n - 1) as nat, i);
        match units::unit_note(dirs, live, hashes, n - 1) {
            Some(last) => {
                assert(before.push(last) =~= before + seq![last]);
                order::lemma_concat_contains(before, seq![last], note);
            },
            None => {},
        }
    } else {
        assert(before.push(note)[before.len() as int] == note);
    }
}

/// A selection has no repeats.
proof fn lemma_picks_unique(n: nat, p: spec_fn(int) -> bool)
    requires
        n <= usize::MAX,
    ensures
        order::picks(n, p).no_duplicates(),
{
    order::lemma_picks(n, p);
    let s = order::picks(n, p);
    assert forall|i: int, j: int| 0 <= i < s.len() && 0 <= j < s.len() && i != j implies s[i] != s[j] by {
        if i < j {
            assert(s[i] < s[j]);
        } else {
            assert(s[j] < s[i]);
        }
    }
}

/// What is wrapped in different removals stays different.
proof fn lemma_wrapped_unique(s: Seq<usize>, f: spec_fn(usize) -> Removal)
    requires
        s.no_duplicates(),
        forall|i: usize, j: usize| #[trigger] f(i) == #[trigger] f(j) ==> i == j,
    ensures
        s.map_values(f).no_duplicates(),
{
    let t = s.map_values(f);
    assert forall|i: int, j: int| 0 <= i < t.len() && 0 <= j < t.len() && i != j implies t[i] != t[j] by {
        assert(s[i] != s[j]);
    }
}

/// The list of fingerprint dirs that go has no repeats.
proof fn lemma_stale_unique(
    profile: ProfileListing,
    live: LiveNames,
    opts: SweepOptions,
    now: Timestamp,
)
    requires
        laws::has_distinct_hashes(profile.fingerprints@),
    ensures
        plan::settled_stock(profile, live, opts, now).stale.no_duplicates(),
{
    let dirs = profile.fingerprints@;
    let n = dirs.len();
    assert(n == profile.fingerprints.len());
    let cutoff = opts.max_age_cutoff;
    let prunes = units::prune_names(opts.prune_targets@);
    let s0 = laws::taken(profile, live, opts, now);
    let s1 = units::without_demoted(dirs, live, s0);
    let s2 = units::without_superseded(dirs, live, s0);
    let outdated = |i: int| dirs[i].is_listed() && !dirs[i].is_current(live, cutoff, now);
    let demoted = |i: int| units::is_demoted(dirs, live, s0.live, i);
    let zombie = |i: int| units::is_zombie(dirs, live, s1.live, i);
    let promoted = |i: int| units::is_promoted(dirs, prunes, s2, i);
    lemma_picks_unique(n, outdated);
    lemma_picks_unique(n, demoted);
    lemma_picks_unique(n, zombie);
    lemma_picks_unique(n, promoted);
    order::lemma_picks(n, outdated);
    order::lemma_picks(n, demoted);
    order::lemma_picks(n, zombie);
    order::lemma_picks(n, promoted);
    assert(s0.stale == order::picks(n, outdated));
    assert forall|i: usize| #[trigger] s0.stale.contains(i) implies !order::picks(n, demoted).contains(
        i,
    ) by {
        if demoted(i as int) {
            lemma_own_hash(profile, live, opts, now, i as int);
        }
        assert(outdated(i as int));
    }
    order::lemma_concat_unique(s0.stale, order::picks(n, demoted));
    assert forall|i: usize| #[trigger] s1.stale.contains(i) implies !order::picks(n, zombie).contains(
        i,
    ) by {
        order::lemma_concat_contains(s0.stale, order::picks(n, demoted), i);
        if i < n && zombie(i as int) {
            lemma_zombie(profile, live, opts, now, i as int);
            if s0.stale.contains(i) {
                assert(outdated(i as int));
            } else {
                assert(demoted(i as int));
            }
        }
    }
    order::lemma_concat_unique(s1.stale, order::picks(n, zombie));
    assert forall|i: usize| #[trigger] s2.stale.contains(i) implies !order::picks(
        n,
        promoted,
    ).contains(i) by {
        if order::picks(n, promoted).contains(i) {
            assert(promoted(i as int));
            lemma_listed_hash_is_not_in_use(profile, live, opts, now, i);
        }
    }
    order::lemma_concat_unique(s2.stale, order::picks(n, promoted));
}

/// The hash of a dir that goes is not in use, where no other dir has it.
proof fn lemma_listed_hash_is_not_in_use(
    profile: ProfileListing,
    live: LiveNames,
    opts: SweepOptions,
    now: Timestamp,
    i: usize,
)
    requires
        laws::has_distinct_hashes(profile.fingerprints@),
        units::without_superseded(
            profile.fingerprints@,
            live,
            laws::taken(profile, live, opts, now),
        ).stale.contains(i),
        i < profile.fingerprints@.len(),
        profile.fingerprints@[i as int].unit() is Some,
    ensures
        !units::without_superseded(
            profile.fingerprints@,
            live,
            laws::taken(profile, live, opts, now),
        ).live.contains(profile.fingerprints@[i as int].hash()),
{
    let dirs = profile.fingerprints@;
    let n = dirs.len();
    assert(n == profile.fingerprints.len());
    let cutoff = opts.max_age_cutoff;
    let h = dirs[i as int].hash();
    let s0 = laws::taken(profile, live, opts, now);
    let s1 = units::without_demoted(dirs, live, s0);
    let outdated = |k: int| dirs[k].is_listed() && !dirs[k].is_current(live, cutoff, now);
    let demoted = |k: int| units::is_demoted(dirs, live, s0.live, k);
    let zombie = |k: int| units::is_zombie(dirs, live, s1.live, k);
    order::lemma_picks(n, outdated);
    order::lemma_picks(n, demoted);
    order::lemma_picks(n, zombie);
    assert(s0.stale == order::picks(n, outdated));
    order::lemma_concat_contains(s0.stale, order::picks(n, demoted), i);
    order::lemma_concat_contains(s1.stale, order::picks(n, zombie), i);
    lemma_own_hash(profile, live, opts, now, i as int);
    if s0.stale.contains(i) {
        assert(outdated(i as int));
    } else if order::picks(n, demoted).contains(i) {
        assert(demoted(i as int));
        assert(inventory::hashes_where(dirs, n as int, demoted).contains(h));
    } else {
        assert(zombie(i as int));
        assert(inventory::hashes_where(dirs, n as int, zombie).contains(h));
    }
}

/// The sessions that go have no repeats, nor have their removals.
proof fn lemma_sessions_unique(cache: CacheDir, at: usize, gone: Seq<usize>)
    requires
        gone.no_duplicates(),
    ensures
        plan::session_removals(cache, at, gone).no_duplicates(),
    decreases gone.len(),
{
    if gone.len() > 0 {
        let init = gone.drop_last();
        let session = gone.last();
        let before = plan::session_removals(cache, at, init);
        let dir = Removal::Session { cache: at, session };
        let lock = Removal::SessionLock { cache: at, session };
        lemma_sessions_unique(cache, at, init);
        assert(!init.contains(session)) by {
            if init.contains(session) {
                let k = choose|k: int| 0 <= k < init.len() && init[k] == session;
                assert(gone[k] == gone[gone.len() - 1]);
            }
        }
        laws::lemma_session_removals(cache, at, init, dir);
        laws::lemma_session_removals(cache, at, init, lock);
        lemma_push_unique(before, dir);
        let with_dir = before.push(dir);
        assert(!with_dir.contains(lock)) by {
            if with_dir.contains(lock) {
                let k = choose|k: int| 0 <= k < with_dir.len() && with_dir[k] == lock;
                assert(before[k] == lock);
                assert(before.contains(lock));
            }
        }
        lemma_push_unique(with_dir, lock);
    }
}

/// A list without repeats with something else behind it.
proof fn lemma_push_unique<T>(s: Seq<T>, x: T)
    requires
        s.no_duplicates(),
        !s.contains(x),
    ensures
        s.push(x).no_duplicates(),
{
    assert forall|i: int, j: int| 0 <= i < s.push(x).len() && 0 <= j < s.push(x).len() && i != j implies s.push(
        x,
    )[i] != s.push(x)[j] by {
        if i < s.len() && j < s.len() {
            assert(s[i] != s[j]);
        } else if i < s.len() {
            assert(s.contains(s[i]));
        } else {
            assert(s.contains(s[j]));
        }
    }
}

/// The sweep of `incremental/` removes nothing twice.
proof fn lemma_incremental_unique(
    caches: Seq<CacheDir>,
    n: nat,
    missing: Seq<usize>,
    live: LiveNames,
    prunes: Set<Seq<char>>,
    keep: usize,
)
    requires
        n <= caches.len() <= usize::MAX,
    ensures
        plan::incremental_removals(caches, n, missing, live, prunes, keep).no_duplicates(),
    decreases n,
{
    if n > 0 {
        let m = (n - 1) as nat;
        let at = m as usize;
        let cache = caches[m as int];
        lemma_incremental_unique(caches, m, missing, live, prunes, keep);
        let before = plan::incremental_removals(caches, m, missing, live, prunes, keep);
        let here = plan::cache_removals(cache, at, live, prunes, keep);
        assert(cache.sessions@.len() == cache.sessions.len());
        as_many_sessions_stay_as_are_kept(cache.sessions@, keep);
        lemma_sessions_unique(cache, at, plan::old_sessions(cache.sessions@, keep));
        assert(here.no_duplicates());
        assert forall|r: Removal| #[trigger] before.contains(r) implies !here.contains(r) by {
            laws::lemma_incremental(caches, m, missing, live, prunes, keep, r);
            let k = choose|k: usize|
                k < m && !missing.contains(k) && #[trigger] plan::cache_removals(
                    caches[k as int],
                    k,
                    live,
                    prunes,
                    keep,
                ).contains(r);
            laws::lemma_cache(caches[k as int], k, live, prunes, keep, r);
            laws::lemma_cache(cache, at, live, prunes, keep, r);
        }
        order::lemma_concat_unique(before, here);
    }
}

/// **Nothing is removed twice.**
pub proof fn nothing_is_removed_twice(
    profile: ProfileListing,
    live: LiveNames,
    opts: SweepOptions,
    now: Timestamp,
)
    requires
        plain::has_one_dir_for_each_hash(profile.fingerprints@),
    ensures
        plan::profile_removals(profile, live, opts, now).no_duplicates(),
        plan::pruned_removals(profile, opts).no_duplicates(),
{
    let stock = plan::settled_stock(profile, live, opts, now);
    let prunes = units::prune_names(opts.prune_targets@);
    assert(profile.deps@.len() == profile.deps.len());
    assert(profile.build@.len() == profile.build.len());
    assert(profile.incremental@.len() == profile.incremental.len());
    assert(profile.top_level@.len() == profile.top_level.len());
    assert(profile.examples@.len() == profile.examples.len());
    assert(profile.fingerprints@.len() == profile.fingerprints.len());
    lemma_distinct(profile.fingerprints@);
    let z = plan::zombie_caches(profile, live, opts, now);
    let member = |i: int| units::is_member_cache(profile.incremental@[i], live);
    lemma_picks_unique(profile.incremental@.len(), member);
    assert(z.no_duplicates());
    lemma_stale_unique(profile, live, opts, now);
    lemma_incremental_unique(
        profile.incremental@,
        profile.incremental@.len(),
        z,
        live,
        prunes,
        opts.keep_sessions,
    );
    let caches = plan::incremental_removals(
        profile.incremental@,
        profile.incremental@.len(),
        z,
        live,
        prunes,
        opts.keep_sessions,
    );
    let d = |i: int| plan::is_stale_dep(profile.deps@[i], stock.live, prunes);
    let b = |i: int| plan::is_stale_build(profile.build@[i], stock.live, prunes);
    let t = |i: int| plan::is_stale_top_level(profile.top_level@[i], stock.live, live, prunes);
    let e = |i: int| plan::is_stale_example(profile.examples@[i], stock.live, live, prunes);
    lemma_picks_unique(profile.deps@.len(), d);
    lemma_picks_unique(profile.build@.len(), b);
    lemma_picks_unique(profile.top_level@.len(), t);
    lemma_picks_unique(profile.examples@.len(), e);
    let p0 = z.map_values(|i: usize| Removal::ZombieCache(i));
    let p1 = plan::stale_deps(profile, stock.live, prunes).map_values(
        |i: usize| Removal::DepsFile(i),
    );
    let p2 = plan::stale_builds(profile, stock.live, prunes).map_values(
        |i: usize| Removal::BuildDir(i),
    );
    let p4 = plan::stale_top_level(profile, stock.live, live, prunes).map_values(
        |i: usize| Removal::TopLevelFile(i),
    );
    let p5 = plan::stale_examples(profile, stock.live, live, prunes).map_values(
        |i: usize| Removal::ExampleFile(i),
    );
    let p6 = stock.stale.map_values(|i: usize| Removal::Fingerprint(i));
    lemma_wrapped_unique(z, |i: usize| Removal::ZombieCache(i));
    lemma_wrapped_unique(
        plan::stale_deps(profile, stock.live, prunes),
        |i: usize| Removal::DepsFile(i),
    );
    lemma_wrapped_unique(
        plan::stale_builds(profile, stock.live, prunes),
        |i: usize| Removal::BuildDir(i),
    );
    lemma_wrapped_unique(
        plan::stale_top_level(profile, stock.live, live, prunes),
        |i: usize| Removal::TopLevelFile(i),
    );
    lemma_wrapped_unique(
        plan::stale_examples(profile, stock.live, live, prunes),
        |i: usize| Removal::ExampleFile(i),
    );
    lemma_wrapped_unique(stock.stale, |i: usize| Removal::Fingerprint(i));
    assert forall|r: Removal| #[trigger] caches.contains(r) implies r is Cache || r is Session
        || r is SessionLock by {
        lemma_cache_removal(profile, z, live, prunes, opts.keep_sessions, r);
    }
    lemma_seven_unique(p0, p1, p2, caches, p4, p5, p6);
    // Pruning alone.
    let kept = plan::unpruned_hashes(profile, prunes);
    let d = |i: int| plan::is_stale_dep(profile.deps@[i], kept, prunes);
    let b = |i: int| plan::is_stale_build(profile.build@[i], kept, prunes);
    let c = |i: int| plan::is_pruned_cache(profile.incremental@[i], prunes);
    let t = |i: int| plan::is_pruned_top_level(profile.top_level@[i], prunes);
    let e = |i: int| plan::is_pruned_example(profile.examples@[i], prunes);
    let f = |i: int| units::is_pruned(profile.fingerprints@[i], prunes);
    lemma_picks_unique(profile.deps@.len(), d);
    lemma_picks_unique(profile.build@.len(), b);
    lemma_picks_unique(profile.incremental@.len(), c);
    lemma_picks_unique(profile.top_level@.len(), t);
    lemma_picks_unique(profile.examples@.len(), e);
    lemma_picks_unique(profile.fingerprints@.len(), f);
    lemma_wrapped_unique(plan::stale_deps(profile, kept, prunes), |i: usize| Removal::DepsFile(i));
    lemma_wrapped_unique(
        plan::stale_builds(profile, kept, prunes),
        |i: usize| Removal::BuildDir(i),
    );
    lemma_wrapped_unique(plan::pruned_caches(profile, prunes), |i: usize| Removal::Cache(i));
    lemma_wrapped_unique(
        plan::pruned_top_level(profile, prunes),
        |i: usize| Removal::TopLevelFile(i),
    );
    lemma_wrapped_unique(
        plan::pruned_examples(profile, prunes),
        |i: usize| Removal::ExampleFile(i),
    );
    lemma_wrapped_unique(
        plan::pruned_fingerprints(profile, prunes),
        |i: usize| Removal::Fingerprint(i),
    );
    let q1 = plan::stale_deps(profile, kept, prunes).map_values(|i: usize| Removal::DepsFile(i));
    let q2 = plan::stale_builds(profile, kept, prunes).map_values(|i: usize| Removal::BuildDir(i));
    let q3 = plan::pruned_caches(profile, prunes).map_values(|i: usize| Removal::Cache(i));
    let q4 = plan::pruned_top_level(profile, prunes).map_values(
        |i: usize| Removal::TopLevelFile(i),
    );
    let q5 = plan::pruned_examples(profile, prunes).map_values(|i: usize| Removal::ExampleFile(i));
    let q6 = plan::pruned_fingerprints(profile, prunes).map_values(
        |i: usize| Removal::Fingerprint(i),
    );
    let none = Seq::<Removal>::empty();
    lemma_seven_unique(none, q1, q2, q3, q4, q5, q6);
    assert(none + q1 =~= q1);
}

/// Lists of different kinds of removals make one without repeats.
proof fn lemma_seven_unique(
    p0: Seq<Removal>,
    p1: Seq<Removal>,
    p2: Seq<Removal>,
    p3: Seq<Removal>,
    p4: Seq<Removal>,
    p5: Seq<Removal>,
    p6: Seq<Removal>,
)
    requires
        p0.no_duplicates() && p1.no_duplicates() && p2.no_duplicates() && p3.no_duplicates()
            && p4.no_duplicates() && p5.no_duplicates() && p6.no_duplicates(),
        forall|i: int| 0 <= i < p0.len() ==> (#[trigger] p0[i]) is ZombieCache,
        forall|i: int| 0 <= i < p1.len() ==> (#[trigger] p1[i]) is DepsFile,
        forall|i: int| 0 <= i < p2.len() ==> (#[trigger] p2[i]) is BuildDir,
        forall|r: Removal| #[trigger]
            p3.contains(r) ==> r is Cache || r is Session || r is SessionLock,
        forall|i: int| 0 <= i < p4.len() ==> (#[trigger] p4[i]) is TopLevelFile,
        forall|i: int| 0 <= i < p5.len() ==> (#[trigger] p5[i]) is ExampleFile,
        forall|i: int| 0 <= i < p6.len() ==> (#[trigger] p6[i]) is Fingerprint,
    ensures
        (p0 + p1 + p2 + p3 + p4 + p5 + p6).no_duplicates(),
{
    assert forall|r: Removal| #[trigger] p0.contains(r) implies r is ZombieCache by {}
    assert forall|r: Removal| #[trigger] p1.contains(r) implies r is DepsFile by {}
    assert forall|r: Removal| #[trigger] p2.contains(r) implies r is BuildDir by {}
    assert forall|r: Removal| #[trigger] p4.contains(r) implies r is TopLevelFile by {}
    assert forall|r: Removal| #[trigger] p5.contains(r) implies r is ExampleFile by {}
    assert forall|r: Removal| #[trigger] p6.contains(r) implies r is Fingerprint by {}
    order::lemma_concat_unique(p0, p1);
    let a = p0 + p1;
    assert forall|r: Removal| #[trigger] a.contains(r) implies r is ZombieCache || r is DepsFile by {
        order::lemma_concat_contains(p0, p1, r);
    }
    order::lemma_concat_unique(a, p2);
    let b = a + p2;
    assert forall|r: Removal| #[trigger] b.contains(r) implies r is ZombieCache || r is DepsFile
        || r is BuildDir by {
        order::lemma_concat_contains(a, p2, r);
    }
    order::lemma_concat_unique(b, p3);
    let c = b + p3;
    assert forall|r: Removal| #[trigger] c.contains(r) implies !(r is TopLevelFile)
        && !(r is ExampleFile) && !(r is Fingerprint) by {
        order::lemma_concat_contains(b, p3, r);
    }
    order::lemma_concat_unique(c, p4);
    let d = c + p4;
    assert forall|r: Removal| #[trigger] d.contains(r) implies !(r is ExampleFile)
        && !(r is Fingerprint) by {
        order::lemma_concat_contains(c, p4, r);
    }
    order::lemma_concat_unique(d, p5);
    let e = d + p5;
    assert forall|r: Removal| #[trigger] e.contains(r) implies !(r is Fingerprint) by {
        order::lemma_concat_contains(d, p5, r);
    }
    order::lemma_concat_unique(e, p6);
}

} // verus!
