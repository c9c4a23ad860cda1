//! A sweep goes by what its listing shows, and looks no further than it has to.

use vstd::prelude::*;

use crate::inventory::{self, FingerprintDir, Stock};
use crate::laws;
use crate::listing::{CacheDir, Entry, ProfileListing, SessionEntry};
use crate::live_set::LiveNames;
use crate::order;
use crate::plan;
use crate::sweep::SweepOptions;
use crate::timestamp::Timestamp;
use crate::units;

verus! {

broadcast use vstd::seq::group_seq_axioms;

/// Whether two listings show the same fingerprint dirs, in the same order.
pub open spec fn are_same_dirs(a: Seq<FingerprintDir>, b: Seq<FingerprintDir>) -> bool {
    b.len() == a.len() && forall|i: int|
        #![trigger a[i]]
        #![trigger b[i]]
        0 <= i < a.len() ==> laws::is_same_dir(a[i], b[i])
}

/// Whether two listings show the same entries, in the same order.
pub open spec fn are_same_entries(a: Seq<Entry>, b: Seq<Entry>) -> bool {
    b.len() == a.len() && forall|i: int|
        #![trigger a[i]]
        #![trigger b[i]]
        0 <= i < a.len() ==> laws::is_same_entry(a[i], b[i])
}

/// Whether two listings of a cache show the same sessions, in the same order.
pub open spec fn are_same_sessions(a: Seq<SessionEntry>, b: Seq<SessionEntry>) -> bool {
    b.len() == a.len() && forall|i: int|
        #![trigger a[i]]
        #![trigger b[i]]
        0 <= i < a.len() ==> laws::is_same_session(a[i], b[i]) && a[i].has_lock == b[i].has_lock
}

/// Whether two listings of a profile dir show the same, but for the sessions of
/// the caches that a sweep of the first does not leave.
pub open spec fn is_listed_alike(
    a: ProfileListing,
    b: ProfileListing,
    live: LiveNames,
    opts: SweepOptions,
    now: Timestamp,
) -> bool {
    &&& are_same_dirs(a.fingerprints@, b.fingerprints@)
    &&& are_same_entries(a.deps@, b.deps@)
    &&& are_same_entries(a.build@, b.build@)
    &&& are_same_entries(a.top_level@, b.top_level@)
    &&& are_same_entries(a.examples@, b.examples@)
    &&& b.incremental@.len() == a.incremental@.len()
    &&& forall|i: int|
        0 <= i < a.incremental@.len() ==> {
            let c = #[trigger] a.incremental@[i];
            let d = b.incremental@[i];
            &&& d.name@ == c.name@
            &&& d.is_dir == c.is_dir
            &&& plan::caches_left(a, live, opts, now).contains(i as usize) ==> are_same_sessions(
                c.sessions@,
                d.sessions@,
            )
        }
}

/// The same entries have the same hashes.
proof fn lemma_same_hashes(
    a: Seq<FingerprintDir>,
    b: Seq<FingerprintDir>,
    p: spec_fn(int) -> bool,
    q: spec_fn(int) -> bool,
)
    requires
        are_same_dirs(a, b),
        forall|i: int| #![trigger p(i)] #![trigger q(i)] 0 <= i < a.len() ==> p(i) == q(i),
    ensures
        inventory::hashes_where(a, a.len() as int, p) == inventory::hashes_where(
            b,
            b.len() as int,
            q,
        ),
{
    let m = inventory::hashes_where(a, a.len() as int, p);
    let n = inventory::hashes_where(b, b.len() as int, q);
    assert forall|h: Seq<char>| m.contains(h) == n.contains(h) by {
        if m.contains(h) {
            let i = choose|i: int| 0 <= i < a.len() && #[trigger] p(i) && h == a[i].hash();
            assert(q(i) && h == b[i].hash());
        }
        if n.contains(h) {
            let i = choose|i: int| 0 <= i < b.len() && #[trigger] q(i) && h == b[i].hash();
            assert(p(i) && h == a[i].hash());
        }
    }
    assert(m =~= n);
}

/// The same entries are demoted.
proof fn lemma_same_demoted(
    a: Seq<FingerprintDir>,
    b: Seq<FingerprintDir>,
    live: LiveNames,
    hashes: Set<Seq<char>>,
    i: int,
)
    requires
        are_same_dirs(a, b),
        0 <= i < a.len(),
        units::is_demoted(a, live, hashes, i),
    ensures
        units::is_demoted(b, live, hashes, i),
{
    let j = choose|j: int|
        0 <= j < a.len() && j != i && #[trigger] units::is_candidate(a[j], hashes)
            && units::same_unit(a[i], a[j]) && (live.members.contains(a[i].crate_name())
            ==> units::is_newer(a, j, i));
    assert(laws::is_same_dir(a[i], b[i]) && laws::is_same_dir(a[j], b[j]));
    assert(units::is_candidate(b[j], hashes));
}

/// The same entries are workspace members in use.
proof fn lemma_same_zombie(
    a: Seq<FingerprintDir>,
    b: Seq<FingerprintDir>,
    live: LiveNames,
    hashes: Set<Seq<char>>,
    i: int,
)
    requires
        are_same_dirs(a, b),
        0 <= i < a.len(),
        units::is_zombie(a, live, hashes, i),
    ensures
        units::is_zombie(b, live, hashes, i),
{
    assert(laws::is_same_dir(a[i], b[i]));
    assert forall|j: int| 0 <= j < i && #[trigger] units::is_member_unit(b[j], live)
        implies b[j].hash() != b[i].hash() by {
        assert(laws::is_same_dir(a[j], b[j]));
        assert(units::is_member_unit(a[j], live));
    }
}

/// Pruning puts the same entries on the list.
proof fn lemma_same_promoted(
    a: Seq<FingerprintDir>,
    b: Seq<FingerprintDir>,
    prunes: Set<Seq<char>>,
    stock: Stock,
    i: int,
)
    requires
        are_same_dirs(a, b),
        0 <= i < a.len(),
        units::is_promoted(a, prunes, stock, i),
    ensures
        units::is_promoted(b, prunes, stock, i),
{
    assert(laws::is_same_dir(a[i], b[i]));
    if stock.stale.contains(i as usize) {
        assert forall|j: int| 0 <= j < i && #[trigger] units::is_pruned(b[j], prunes)
            implies b[j].hash() != b[i].hash() by {
            assert(laws::is_same_dir(a[j], b[j]));
            assert(units::is_pruned(a[j], prunes));
        }
    }
}

/// The same fingerprint dirs give the same inventory, and take the same caches
/// with them.
proof fn lemma_same_stock(
    a: ProfileListing,
    b: ProfileListing,
    live: LiveNames,
    opts: SweepOptions,
    now: Timestamp,
)
    requires
        are_same_dirs(a.fingerprints@, b.fingerprints@),
    ensures
        plan::settled_stock(b, live, opts, now) == plan::settled_stock(a, live, opts, now),
        units::purges_caches(
            b.fingerprints@,
            live,
            inventory::taken_stock(b.fingerprints@, live, opts.max_age_cutoff, now),
        ) == units::purges_caches(
            a.fingerprints@,
            live,
            inventory::taken_stock(a.fingerprints@, live, opts.max_age_cutoff, now),
        ),
{
    let x = a.fingerprints@;
    let y = b.fingerprints@;
    let n = x.len();
    let cutoff = opts.max_age_cutoff;
    let prunes = units::prune_names(opts.prune_targets@);
    assert(are_same_dirs(y, x));
    let current_x = |i: int| x[i].is_current(live, cutoff, now);
    let current_y = |i: int| y[i].is_current(live, cutoff, now);
    let outdated_x = |i: int| x[i].is_listed() && !x[i].is_current(live, cutoff, now);
    let outdated_y = |i: int| y[i].is_listed() && !y[i].is_current(live, cutoff, now);
    lemma_same_hashes(x, y, current_x, current_y);
    order::lemma_picks_agree(n, outdated_x, outdated_y);
    let s0 = inventory::taken_stock(a.fingerprints@, live, opts.max_age_cutoff, now);
    assert(inventory::taken_stock(b.fingerprints@, live, opts.max_age_cutoff, now) == s0);
    let demoted_x = |i: int| units::is_demoted(x, live, s0.live, i);
    let demoted_y = |i: int| units::is_demoted(y, live, s0.live, i);
    assert forall|i: int| #![trigger demoted_x(i)] #![trigger demoted_y(i)]
        0 <= i < n implies demoted_x(i) == demoted_y(i) by {
        if demoted_x(i) {
            lemma_same_demoted(x, y, live, s0.live, i);
        }
        if demoted_y(i) {
            lemma_same_demoted(y, x, live, s0.live, i);
        }
    }
    lemma_same_hashes(x, y, demoted_x, demoted_y);
    order::lemma_picks_agree(n, demoted_x, demoted_y);
    let s1 = units::without_demoted(x, live, s0);
    assert(units::without_demoted(y, live, s0) == s1);
    assert(units::dependency_demoted(x, live, s0.live) == units::dependency_demoted(
        y,
        live,
        s0.live,
    )) by {
        if units::dependency_demoted(x, live, s0.live) {
            let i = choose|i: int|
                0 <= i < n && #[trigger] units::is_demoted(x, live, s0.live, i)
                    && !live.members.contains(x[i].crate_name());
            assert(demoted_x(i) && demoted_y(i) && laws::is_same_dir(x[i], y[i]));
        }
        if units::dependency_demoted(y, live, s0.live) {
            let i = choose|i: int|
                0 <= i < n && #[trigger] units::is_demoted(y, live, s0.live, i)
                    && !live.members.contains(y[i].crate_name());
            assert(demoted_y(i) && demoted_x(i) && laws::is_same_dir(x[i], y[i]));
        }
    }
    let zombie_x = |i: int| units::is_zombie(x, live, s1.live, i);
    let zombie_y = |i: int| units::is_zombie(y, live, s1.live, i);
    assert forall|i: int| #![trigger zombie_x(i)] #![trigger zombie_y(i)]
        0 <= i < n implies zombie_x(i) == zombie_y(i) by {
        if zombie_x(i) {
            lemma_same_zombie(x, y, live, s1.live, i);
        }
        if zombie_y(i) {
            lemma_same_zombie(y, x, live, s1.live, i);
        }
    }
    lemma_same_hashes(x, y, zombie_x, zombie_y);
    order::lemma_picks_agree(n, zombie_x, zombie_y);
    assert(units::any_zombie(x, live, s1.live) == units::any_zombie(y, live, s1.live)) by {
        if units::any_zombie(x, live, s1.live) {
            let i = choose|i: int| 0 <= i < n && #[trigger] units::is_zombie(x, live, s1.live, i);
            assert(zombie_x(i) && zombie_y(i));
        }
        if units::any_zombie(y, live, s1.live) {
            let i = choose|i: int| 0 <= i < n && #[trigger] units::is_zombie(y, live, s1.live, i);
            assert(zombie_y(i) && zombie_x(i));
        }
    }
    let s2 = units::without_superseded(x, live, s0);
    assert(units::without_superseded(y, live, s0) == s2);
    let pruned_x = |i: int| units::is_pruned(x[i], prunes);
    let pruned_y = |i: int| units::is_pruned(y[i], prunes);
    lemma_same_hashes(x, y, pruned_x, pruned_y);
    let promoted_x = |i: int| units::is_promoted(x, prunes, s2, i);
    let promoted_y = |i: int| units::is_promoted(y, prunes, s2, i);
    assert forall|i: int| #![trigger promoted_x(i)] #![trigger promoted_y(i)]
        0 <= i < n implies promoted_x(i) == promoted_y(i) by {
        if promoted_x(i) {
            lemma_same_promoted(x, y, prunes, s2, i);
        }
        if promoted_y(i) {
            lemma_same_promoted(y, x, prunes, s2, i);
        }
    }
    order::lemma_picks_agree(n, promoted_x, promoted_y);
}

/// The same files and dirs are stale.
proof fn lemma_same_stale(
    a: ProfileListing,
    b: ProfileListing,
    hashes: Set<Seq<char>>,
    live: LiveNames,
    prunes: Set<Seq<char>>,
)
    requires
        are_same_entries(a.deps@, b.deps@),
        are_same_entries(a.build@, b.build@),
        are_same_entries(a.top_level@, b.top_level@),
        are_same_entries(a.examples@, b.examples@),
    ensures
        plan::stale_deps(b, hashes, prunes) == plan::stale_deps(a, hashes, prunes),
        plan::stale_builds(b, hashes, prunes) == plan::stale_builds(a, hashes, prunes),
        plan::stale_top_level(b, hashes, live, prunes) == plan::stale_top_level(
            a,
            hashes,
            live,
            prunes,
        ),
        plan::stale_examples(b, hashes, live, prunes) == plan::stale_examples(
            a,
            hashes,
            live,
            prunes,
        ),
        plan::pruned_top_level(b, prunes) == plan::pruned_top_level(a, prunes),
        plan::pruned_examples(b, prunes) == plan::pruned_examples(a, prunes),
{
    let n = a.deps@.len();
    let p = |i: int| plan::is_stale_dep(a.deps@[i], hashes, prunes);
    let q = |i: int| plan::is_stale_dep(b.deps@[i], hashes, prunes);
    order::lemma_picks_agree(n, p, q);
    let n = a.build@.len();
    let p = |i: int| plan::is_stale_build(a.build@[i], hashes, prunes);
    let q = |i: int| plan::is_stale_build(b.build@[i], hashes, prunes);
    order::lemma_picks_agree(n, p, q);
    let n = a.top_level@.len();
    let p = |i: int| plan::is_stale_top_level(a.top_level@[i], hashes, live, prunes);
    let q = |i: int| plan::is_stale_top_level(b.top_level@[i], hashes, live, prunes);
    order::lemma_picks_agree(n, p, q);
    let p = |i: int| plan::is_pruned_top_level(a.top_level@[i], prunes);
    let q = |i: int| plan::is_pruned_top_level(b.top_level@[i], prunes);
    order::lemma_picks_agree(n, p, q);
    let n = a.examples@.len();
    let p = |i: int| plan::is_stale_example(a.examples@[i], hashes, live, prunes);
    let q = |i: int| plan::is_stale_example(b.examples@[i], hashes, live, prunes);
    order::lemma_picks_agree(n, p, q);
    let p = |i: int| plan::is_pruned_example(a.examples@[i], prunes);
    let q = |i: int| plan::is_pruned_example(b.examples@[i], prunes);
    order::lemma_picks_agree(n, p, q);
}

/// The sweep of `incremental/` does not depend on the sessions of the caches that
/// go.
proof fn lemma_unread_sessions(
    a: Seq<CacheDir>,
    b: Seq<CacheDir>,
    n: nat,
    missing: Seq<usize>,
    live: LiveNames,
    prunes: Set<Seq<char>>,
    keep: usize,
)
    requires
        n <= a.len() == b.len() <= usize::MAX,
        forall|i: int|
            0 <= i < a.len() ==> {
                let c = #[trigger] a[i];
                let d = b[i];
                &&& d.name@ == c.name@
                &&& d.is_dir == c.is_dir
                &&& !missing.contains(i as usize) && (c.cached_crate() matches Some(name)
                    && !plan::is_stale_cache(name, live, prunes)) ==> are_same_sessions(
                    c.sessions@,
                    d.sessions@,
                )
            },
    ensures
        plan::incremental_removals(a, n, missing, live, prunes, keep)
            == plan::incremental_removals(b, n, missing, live, prunes, keep),
    decreases n,
{
    if n > 0 {
        let m = (n - 1) as nat;
        lemma_unread_sessions(a, b, m, missing, live, prunes, keep);
        let c = a[m as int];
        let d = b[m as int];
        assert(c.cached_crate() == d.cached_crate());
        if are_same_sessions(c.sessions@, d.sessions@) {
            assert(c.sessions@.len() == c.sessions.len());
            lemma_same_old_sessions(c.sessions@, d.sessions@, keep);
            lemma_session_list(c, d, m as usize, plan::old_sessions(c.sessions@, keep));
        }
    }
}

/// The same sessions are old.
proof fn lemma_same_old_sessions(a: Seq<SessionEntry>, b: Seq<SessionEntry>, keep: usize)
    requires
        a.len() <= usize::MAX,
        are_same_sessions(a, b),
    ensures
        plan::old_sessions(a, keep) == plan::old_sessions(b, keep),
        forall|k: int|
            0 <= k < plan::old_sessions(a, keep).len() ==> #[trigger] plan::old_sessions(a, keep)[k]
                < a.len(),
{
    let p = |j: int| plan::is_session(a[j]);
    let q = |j: int| plan::is_session(b[j]);
    order::lemma_picks_agree(a.len(), p, q);
    order::lemma_picks(a.len(), p);
    let all = order::picks(a.len(), p);
    let f = |i: usize, j: usize| plan::not_older(a, i, j);
    let g = |i: usize, j: usize| plan::not_older(b, i, j);
    order::lemma_sorted(all, f);
    order::lemma_sorted(all, g);
    let x = all.sort_by(f);
    let y = all.sort_by(g);
    assert forall|i: int, j: int| 0 <= i < j < y.len() implies #[trigger] f(y[i], y[j]) by {
        assert(y.contains(y[i]) && y.contains(y[j]));
        assert(g(y[i], y[j]));
        assert(laws::is_same_session(a[y[i] as int], b[y[i] as int]));
        assert(laws::is_same_session(a[y[j] as int], b[y[j] as int]));
    }
    all.lemma_sort_by_ensures(f);
    all.lemma_sort_by_ensures(g);
    vstd::seq_lib::lemma_sorted_unique(x, y, f);
    assert forall|k: int| 0 <= k < x.len() implies #[trigger] x[k] < a.len() by {
        assert(x.contains(x[k]));
    }
}

/// The removal of sessions depends on nothing of a cache but its sessions.
proof fn lemma_session_list(c: CacheDir, d: CacheDir, at: usize, gone: Seq<usize>)
    requires
        are_same_sessions(c.sessions@, d.sessions@),
        forall|k: int| 0 <= k < gone.len() ==> #[trigger] gone[k] < c.sessions@.len(),
    ensures
        plan::session_removals(c, at, gone) == plan::session_removals(d, at, gone),
    decreases gone.len(),
{
    if gone.len() > 0 {
        assert(gone.last() < c.sessions@.len());
        lemma_session_list(c, d, at, gone.drop_last());
    }
}

/// **The sweep looks into the caches that it leaves, and no others.** What it
/// removes is the same, whatever sessions are listed in a cache that goes as a
/// whole; and pruning another profile does not depend on sessions at all.
pub proof fn unread_sessions_do_not_matter(
    a: ProfileListing,
    b: ProfileListing,
    live: LiveNames,
    opts: SweepOptions,
    now: Timestamp,
)
    requires
        is_listed_alike(a, b, live, opts, now),
    ensures
        plan::caches_left(b, live, opts, now) == plan::caches_left(a, live, opts, now),
        plan::profile_removals(b, live, opts, now) == plan::profile_removals(a, live, opts, now),
        plan::pruned_removals(b, opts) == plan::pruned_removals(a, opts),
{
    let prunes = units::prune_names(opts.prune_targets@);
    let n = a.incremental@.len();
    assert(n == a.incremental.len());
    assert forall|i: int| 0 <= i < n implies (#[trigger] b.incremental@[i]).cached_crate()
        == a.incremental@[i].cached_crate() by {
        let c = a.incremental@[i];
    }
    lemma_same_stock(a, b, live, opts, now);
    let stock = plan::settled_stock(a, live, opts, now);
    lemma_same_stale(a, b, stock.live, live, prunes);
    let member_a = |i: int| units::is_member_cache(a.incremental@[i], live);
    let member_b = |i: int| units::is_member_cache(b.incremental@[i], live);
    order::lemma_picks_agree(n, member_a, member_b);
    let zombies = plan::zombie_caches(a, live, opts, now);
    assert(plan::zombie_caches(b, live, opts, now) == zombies);
    let left_a = |i: int|
        !zombies.contains(i as usize) && (a.incremental@[i].cached_crate() matches Some(name)
            && !plan::is_stale_cache(name, live, prunes));
    let left_b = |i: int|
        !zombies.contains(i as usize) && (b.incremental@[i].cached_crate() matches Some(name)
            && !plan::is_stale_cache(name, live, prunes));
    order::lemma_picks_agree(n, left_a, left_b);
    order::lemma_picks(n, left_a);
    assert forall|i: int| 0 <= i < n implies {
        let c = #[trigger] a.incremental@[i];
        !zombies.contains(i as usize) && (c.cached_crate() matches Some(name)
            && !plan::is_stale_cache(name, live, prunes)) ==> are_same_sessions(
            c.sessions@,
            b.incremental@[i].sessions@,
        )
    } by {
        if left_a(i) {
            assert(order::picks(n, left_a).contains(i as usize));
            assert(plan::caches_left(a, live, opts, now).contains(i as usize));
        }
    }
    lemma_unread_sessions(
        a.incremental@,
        b.incremental@,
        n,
        zombies,
        live,
        prunes,
        opts.keep_sessions,
    );
    let pruned_a = |i: int| plan::is_pruned_cache(a.incremental@[i], prunes);
    let pruned_b = |i: int| plan::is_pruned_cache(b.incremental@[i], prunes);
    order::lemma_picks_agree(n, pruned_a, pruned_b);
    lemma_same_pruned_hashes(a, b, prunes);
    lemma_same_stale(a, b, plan::unpruned_hashes(a, prunes), live, prunes);
}

/// The same units are pruned, and the same hashes are not.
proof fn lemma_same_pruned_hashes(a: ProfileListing, b: ProfileListing, prunes: Set<Seq<char>>)
    requires
        are_same_dirs(a.fingerprints@, b.fingerprints@),
    ensures
        plan::unpruned_hashes(b, prunes) == plan::unpruned_hashes(a, prunes),
        plan::pruned_fingerprints(b, prunes) == plan::pruned_fingerprints(a, prunes),
{
    let x = a.fingerprints@;
    let y = b.fingerprints@;
    assert forall|h: Seq<char>| units::is_pruned_hash(x, prunes, h) == units::is_pruned_hash(
        y,
        prunes,
        h,
    ) by {
        if units::is_pruned_hash(x, prunes, h) {
            let i = choose|i: int|
                0 <= i < x.len() && #[trigger] units::is_pruned(x[i], prunes) && x[i].hash() == h;
            assert(units::is_pruned(y[i], prunes) && y[i].hash() == h);
        }
        if units::is_pruned_hash(y, prunes, h) {
            let i = choose|i: int|
                0 <= i < y.len() && #[trigger] units::is_pruned(y[i], prunes) && y[i].hash() == h;
            assert(units::is_pruned(x[i], prunes) && x[i].hash() == h);
        }
    }
    assert(plan::unpruned_hashes(b, prunes) =~= plan::unpruned_hashes(a, prunes));
    let p = |i: int| units::is_pruned(x[i], prunes);
    let q = |i: int| units::is_pruned(y[i], prunes);
    order::lemma_picks_agree(x.len(), p, q);
}

} // verus!
