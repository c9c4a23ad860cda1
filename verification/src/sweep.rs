//! The actual cleanup pass. Given what lies in a target dir and a live set,
//! decides what cargo no longer references.

use vstd::prelude::*;
use vstd::string::StrSliceExecFns;

use crate::inventory::{self, file_stem, parse_unit_dirname, to_snake, Inventory};
use crate::listing::ProfileListing;
use crate::live_set::{LiveNames, LiveSet};
use crate::names::NameSet;
use crate::order;
use crate::plan::{self, prune_profile_targets, sweep_profile, Removal};
use crate::target_dir::{self, looks_like_profile, TargetEntry};
use crate::text::{self, chars_of, push_decimal, string_of};
use crate::timestamp::Timestamp;

verus! {

broadcast use vstd::seq::group_seq_axioms;

/// What a sweep removed.
#[derive(Debug, Clone, Copy, PartialEq, Eq, Structural)]
pub struct SweepReport {
    pub removed_files: usize,
    pub removed_dirs: usize,
    pub freed_bytes: u64,
}

impl Default for SweepReport {
    fn default() -> (r: SweepReport)
        ensures
            r == (SweepReport { removed_files: 0, removed_dirs: 0, freed_bytes: 0 }),
    {
        SweepReport { removed_files: 0, removed_dirs: 0, freed_bytes: 0 }
    }
}

impl SweepReport {
    /// Whether the sums of the two reports fit.
    pub open spec fn can_merge(self, other: SweepReport) -> bool {
        &&& self.removed_files + other.removed_files <= usize::MAX
        &&& self.removed_dirs + other.removed_dirs <= usize::MAX
        &&& self.freed_bytes + other.freed_bytes <= u64::MAX
    }

    /// The two reports taken together.
    pub open spec fn merged(self, other: SweepReport) -> SweepReport {
        SweepReport {
            removed_files: (self.removed_files + other.removed_files) as usize,
            removed_dirs: (self.removed_dirs + other.removed_dirs) as usize,
            freed_bytes: (self.freed_bytes + other.freed_bytes) as u64,
        }
    }

    /// Adds what another sweep removed.
    pub fn merge(&mut self, other: &SweepReport)
        requires
            old(self).can_merge(*other),
        ensures
            *final(self) == old(self).merged(*other),
    {
        self.removed_files = self.removed_files + other.removed_files;
        self.removed_dirs = self.removed_dirs + other.removed_dirs;
        self.freed_bytes = self.freed_bytes + other.freed_bytes;
    }

    /// The report of one file of `size` bytes.
    pub open spec fn one_file(size: u64) -> SweepReport {
        SweepReport { removed_files: 1, removed_dirs: 0, freed_bytes: size }
    }

    /// The report of one dir of `size` bytes.
    pub open spec fn one_dir(size: u64) -> SweepReport {
        SweepReport { removed_files: 0, removed_dirs: 1, freed_bytes: size }
    }

    /// Counts a removed file of `size` bytes.
    pub fn count_file(&mut self, size: u64)
        requires
            old(self).can_merge(SweepReport::one_file(size)),
        ensures
            *final(self) == old(self).merged(SweepReport::one_file(size)),
    {
        self.removed_files = self.removed_files + 1;
        self.freed_bytes = self.freed_bytes + size;
    }

    /// Counts a removed dir of `size` bytes.
    pub fn count_dir(&mut self, size: u64)
        requires
            old(self).can_merge(SweepReport::one_dir(size)),
        ensures
            *final(self) == old(self).merged(SweepReport::one_dir(size)),
    {
        self.removed_dirs = self.removed_dirs + 1;
        self.freed_bytes = self.freed_bytes + size;
    }

    /// How many files and dirs were removed.
    pub fn total_removed(&self) -> (r: usize)
        requires
            self.removed_files + self.removed_dirs <= usize::MAX,
        ensures
            r == self.removed_files + self.removed_dirs,
    {
        self.removed_files + self.removed_dirs
    }
}

/// Reports can be merged in any order and in any grouping, and the totals add up.
pub proof fn reports_add_up(a: SweepReport, b: SweepReport, c: SweepReport)
    requires
        a.can_merge(b),
        b.can_merge(c),
        a.can_merge(b.merged(c)),
    ensures
        a.merged(b) == b.merged(a),
        a.merged(b).can_merge(c),
        a.merged(b).merged(c) == a.merged(b.merged(c)),
        a.merged(b).removed_files + a.merged(b).removed_dirs == (a.removed_files + a.removed_dirs)
            + (b.removed_files + b.removed_dirs),
{
}

/// How to sweep.
#[derive(Debug, Clone)]
pub struct SweepOptions {
    pub dry_run: bool,
    pub keep_sessions: usize,
    pub verbose: bool,
    /// If Some, restrict the regular sweep to a single profile name
    /// (e.g. "debug"). Doesn't affect what is pruned explicitly.
    pub only_profile: Option<String>,
    /// If Some, drop fingerprint dirs invoked before this absolute cutoff.
    /// See `Inventory::build` for semantics.
    pub max_age_cutoff: Option<Timestamp>,
    /// Wipe these profile dirs entirely, whatever their spelling (`release/`).
    pub prune_profiles: Vec<String>,
    /// Wipe all artifacts for these workspace targets across every profile dir.
    pub prune_targets: Vec<String>,
}

impl Default for SweepOptions {
    fn default() -> (r: SweepOptions)
        ensures
            !r.dry_run,
            r.keep_sessions == 0,
            !r.verbose,
            r.only_profile is None,
            r.max_age_cutoff is None,
            r.prune_profiles@.len() == 0,
            r.prune_targets@.len() == 0,
    {
        SweepOptions {
            dry_run: false,
            keep_sessions: 0,
            verbose: false,
            only_profile: None,
            max_age_cutoff: None,
            prune_profiles: Vec::new(),
            prune_targets: Vec::new(),
        }
    }
}

/// What stands behind `lib` in `s`.
pub open spec fn behind_lib(s: Seq<char>) -> Option<Seq<char>> {
    if s.len() >= 3 && s[0] == 'l' && s[1] == 'i' && s[2] == 'b' {
        Some(s.skip(3))
    } else {
        None
    }
}

/// Whether `s` is in `names`, as it stands or without `lib` in front.
pub open spec fn is_among(s: Seq<char>, names: Set<Seq<char>>) -> bool {
    names.contains(s) || (behind_lib(s) is Some && names.contains(behind_lib(s)->0))
}

/// Whether `s` is a live name, as it stands or without `lib` in front.
pub open spec fn is_live_name(s: Seq<char>, live: LiveNames) -> bool {
    live.matches(s) || (behind_lib(s) is Some && live.matches(behind_lib(s)->0))
}

/// A file name without its extension, and without a hash where it has one.
pub open spec fn artifact_root(filename: Seq<char>) -> Seq<char> {
    match inventory::unit_parts(inventory::stem(filename)) {
        Some((root, _)) => root,
        None => inventory::stem(filename),
    }
}

/// Whether a file name without its extension, and without a hash where it has
/// one, is among `names`.
pub open spec fn is_named_among(filename: Seq<char>, names: Set<Seq<char>>) -> bool {
    is_among(artifact_root(filename), names)
}

/// Whether a file is named for one of the targets `prunes`, as written or in
/// snake_case.
pub open spec fn is_pruned_file(filename: Seq<char>, prunes: Set<Seq<char>>) -> bool {
    is_named_among(filename, prunes) || is_among(inventory::snake(artifact_root(filename)), prunes)
}

/// Whether a file name is that of a live artifact: by its hash where it has one,
/// or by its name.
pub open spec fn is_live_file(filename: Seq<char>, hashes: Set<Seq<char>>, live: LiveNames) -> bool {
    match inventory::unit_parts(inventory::stem(filename)) {
        Some((root, hash)) => hashes.contains(hash) || is_live_name(root, live),
        None => is_live_name(inventory::stem(filename), live),
    }
}

/// What stands behind `lib` in `s`.
fn strip_lib(s: &str) -> (r: Option<&str>)
    ensures
        match r {
            Some(rest) => behind_lib(s@) == Some(rest@),
            None => behind_lib(s@) is None,
        },
{
    let v = chars_of(s);
    if v.len() >= 3 && v[0] == 'l' && v[1] == 'i' && v[2] == 'b' {
        assert(s@.subrange(3, s@.len() as int) =~= s@.skip(3));
        Some(s.substring_char(3, v.len()))
    } else {
        None
    }
}

/// Same logic as `name_matches_live` for the stem-vs-name comparison, but
/// against an arbitrary set instead of `LiveSet`. Handles `lib<name>`
/// prefix and `<name>-<16hex>` hash suffix.
pub fn file_stem_matches(filename: &str, names: &NameSet) -> (r: bool)
    ensures
        r == is_named_among(filename@, names@),
{
    among(root_of(filename), names)
}

/// A file name without its extension, and without a hash where it has one.
fn root_of(filename: &str) -> (r: &str)
    ensures
        r@ == artifact_root(filename@),
{
    let stem = file_stem(filename);
    match parse_unit_dirname(stem) {
        Some((root, _)) => root,
        None => stem,
    }
}

/// Whether `s` is in `names`, as it stands or without `lib` in front.
fn among(s: &str, names: &NameSet) -> (r: bool)
    ensures
        r == is_among(s@, names@),
{
    if names.contains(s) {
        return true;
    }
    match strip_lib(s) {
        Some(rest) => names.contains(rest),
        None => false,
    }
}

/// Whether a file is named for one of the targets `prunes`, which may be given in
/// the hyphenated or the snake_case form.
pub fn prunes_file(filename: &str, prunes: &NameSet) -> (r: bool)
    ensures
        r == is_pruned_file(filename@, prunes@),
{
    file_stem_matches(filename, prunes) || among(to_snake(root_of(filename)).as_str(), prunes)
}

/// True if `filename` matches a known-live target. Handles:
///   - bare `<name>` and `<name>.<ext>`
///   - `lib<name>.<ext>` (workspace library outputs)
///   - `<name>-<16hex>[.ext]` and `lib<name>-<16hex>[.ext]` (hashed deps copies)
pub fn name_matches_live(filename: &str, inv: &Inventory, live: &LiveSet) -> (r: bool)
    ensures
        r == is_live_file(filename@, inv@.live, live@),
{
    let stem = file_stem(filename);
    // If there's a trailing -<16hex>, the canonical "live" check is the
    // hash set; the name itself is whatever comes before.
    if let Some((root, hash)) = parse_unit_dirname(stem) {
        return inv.live_hashes.contains(hash) || matches_name(root, live);
    }
    matches_name(stem, live)
}

/// Whether `stem` is a live name, as it stands or without `lib` in front.
fn matches_name(stem: &str, live: &LiveSet) -> (r: bool)
    ensures
        r == is_live_name(stem@, live@),
{
    if live.matches_any(stem) {
        return true;
    }
    match strip_lib(stem) {
        Some(rest) => live.matches_any(rest),
        None => false,
    }
}

/// `s` without each `./` at its front. `is_behind` tells whether one stood there,
/// so that a further `/` says nothing.
pub open spec fn plain_front(s: Seq<char>, is_behind: bool) -> Seq<char>
    decreases s.len(),
{
    if s.len() >= 2 && s[0] == '.' && s[1] == '/' {
        plain_front(s.skip(2), true)
    } else if is_behind && s.len() >= 1 && s[0] == '/' {
        plain_front(s.skip(1), true)
    } else {
        s
    }
}

/// `s` without each `/` and `/.` at its end.
pub open spec fn plain_back(s: Seq<char>) -> Seq<char>
    decreases s.len(),
{
    if s.len() >= 2 && (s.last() == '/' || (s.last() == '.' && s[s.len() - 2] == '/')) {
        plain_back(s.drop_last())
    } else {
        s
    }
}

/// The name of the profile dir that `s` spells: `./release/` is `release`.
pub open spec fn spelled_profile(s: Seq<char>) -> Seq<char> {
    plain_back(plain_front(s, false))
}

/// The name of the profile dir that `s` spells.
fn profile_spelled(s: &str) -> (r: String)
    ensures
        r@ == spelled_profile(s@),
{
    let v = chars_of(s);
    let mut from: usize = 0;
    let mut is_behind = false;
    assert(v@.skip(0) =~= v@);
    loop
        invariant
            from <= v.len(),
            plain_front(v@.skip(from as int), is_behind) == plain_front(v@, false),
        ensures
            from <= v.len(),
            v@.skip(from as int) == plain_front(v@, false),
        decreases v.len() - from,
    {
        let ghost rest = v@.skip(from as int);
        if v.len() - from >= 2 && v[from] == '.' && v[from + 1] == '/' {
            assert(rest.skip(2) =~= v@.skip(from + 2));
            is_behind = true;
            from = from + 2;
        } else if is_behind && v.len() - from >= 1 && v[from] == '/' {
            assert(rest.skip(1) =~= v@.skip(from + 1));
            from = from + 1;
        } else {
            break;
        }
    }
    let mut to: usize = v.len();
    assert(v@.subrange(from as int, to as int) =~= v@.skip(from as int));
    while to - from >= 2 && (v[to - 1] == '/' || (v[to - 1] == '.' && v[to - 2] == '/'))
        invariant
            from <= to <= v.len(),
            plain_back(v@.subrange(from as int, to as int)) == spelled_profile(v@),
        decreases to,
    {
        assert(v@.subrange(from as int, to as int).drop_last() =~= v@.subrange(
            from as int,
            to - 1,
        ));
        to = to - 1;
    }
    string_of(&v, from, to)
}

/// Whether `name` is that of a profile to be wiped.
pub open spec fn is_wiped_name(name: Seq<char>, opts: SweepOptions) -> bool {
    exists|i: int|
        0 <= i < opts.prune_profiles@.len() && spelled_profile(
            #[trigger] opts.prune_profiles@[i]@,
        ) == name
}

/// Whether `names` spells the profile at the place `i` before.
pub open spec fn is_spelled_before(names: Seq<String>, i: int) -> bool {
    exists|j: int|
        0 <= j < i && spelled_profile(#[trigger] names[j]@) == spelled_profile(names[i]@)
}

/// The places in `opts.prune_profiles` of the profile dirs that are wiped: those
/// that exist, each once.
pub open spec fn wiped_places(opts: SweepOptions, is_dir: Seq<bool>) -> Seq<usize> {
    order::picks(
        is_dir.len(),
        |i: int| is_dir[i] && !is_spelled_before(opts.prune_profiles@, i),
    )
}

/// The places in `opts.prune_profiles` of the profile dirs to wipe, whatever else
/// the options say. `is_dir` tells of each whether there is such a dir. What is
/// named twice, in whatever spelling, is wiped once.
pub fn wiped_profiles(opts: &SweepOptions, is_dir: &Vec<bool>) -> (r: Vec<usize>)
    requires
        is_dir@.len() == opts.prune_profiles@.len(),
    ensures
        r@ == wiped_places(*opts, is_dir@),
{
    let names = &opts.prune_profiles;
    let ghost wiped = |i: int| is_dir@[i] && !is_spelled_before(opts.prune_profiles@, i);
    let mut out: Vec<usize> = Vec::new();
    let mut spelled: Vec<String> = Vec::new();
    let mut i: usize = 0;
    while i < is_dir.len()
        invariant
            i <= is_dir.len(),
            is_dir@.len() == opts.prune_profiles@.len(),
            *names == opts.prune_profiles,
            wiped == (|i: int| is_dir@[i] && !is_spelled_before(opts.prune_profiles@, i)),
            spelled@.len() == i,
            forall|k: int|
                0 <= k < i ==> (#[trigger] spelled@[k])@ == spelled_profile(names@[k]@),
            out@ == order::picks(i as nat, wiped),
        decreases is_dir.len() - i,
    {
        let name = profile_spelled(names[i].as_str());
        let mut j: usize = 0;
        while j < i && spelled[j] != name
            invariant
                j <= i == spelled.len(),
                forall|k: int| 0 <= k < j ==> (#[trigger] spelled@[k])@ != name@,
            decreases i - j,
        {
            j = j + 1;
        }
        proof {
            if j < i {
                assert(spelled_profile(names@[j as int]@) == spelled_profile(names@[i as int]@));
            } else {
                assert forall|k: int| 0 <= k < i implies spelled_profile(#[trigger] names@[k]@)
                    != spelled_profile(names@[i as int]@) by {
                    assert(spelled@[k]@ != name@);
                }
            }
        }
        if is_dir[i] && j == i {
            assert(wiped(i as int));
            out.push(i);
        } else {
            assert(!wiped(i as int));
        }
        spelled.push(name);
        i = i + 1;
    }
    out
}

/// Whether the regular sweep covers an entry of a target dir: it covers each
/// profile dir, or the one with the given name.
pub open spec fn is_in_scope(entry: TargetEntry, opts: SweepOptions) -> bool {
    opts.only_profile matches Some(only) ==> entry.name@ == only@
}

/// Whether a run visits an entry of a target dir: a profile dir that is not wiped
/// as a whole, and that the regular sweep covers or targets are pruned from.
pub open spec fn is_visited(entry: TargetEntry, opts: SweepOptions) -> bool {
    &&& target_dir::is_profile(entry)
    &&& !is_wiped_name(entry.name@, opts)
    &&& is_in_scope(entry, opts) || opts.prune_targets@.len() > 0
}

/// The places of the entries of a target dir that a run visits.
pub open spec fn visited_profiles(entries: Seq<TargetEntry>, opts: SweepOptions) -> Seq<usize> {
    order::picks(entries.len(), |i: int| is_visited(entries[i], opts))
}

/// Whether the regular sweep covers an entry of a target dir.
pub fn covers(entry: &TargetEntry, opts: &SweepOptions) -> (r: bool)
    ensures
        r == is_in_scope(*entry, *opts),
{
    match &opts.only_profile {
        Some(only) => entry.name == *only,
        None => true,
    }
}

/// Whether a run visits an entry of a target dir.
pub fn visits(entry: &TargetEntry, opts: &SweepOptions) -> (r: bool)
    ensures
        r == is_visited(*entry, *opts),
{
    if !looks_like_profile(entry) {
        return false;
    }
    let mut i: usize = 0;
    while i < opts.prune_profiles.len()
        invariant
            i <= opts.prune_profiles.len(),
            forall|k: int|
                0 <= k < i ==> spelled_profile(#[trigger] opts.prune_profiles@[k]@)
                    != entry.name@,
        decreases opts.prune_profiles.len() - i,
    {
        if profile_spelled(opts.prune_profiles[i].as_str()) == entry.name {
            return false;
        }
        i = i + 1;
    }
    covers(entry, opts) || opts.prune_targets.len() > 0
}

/// An entry of a target dir, with what lies in it if it is a profile dir.
#[derive(Debug)]
pub struct ProfileDir {
    pub entry: TargetEntry,
    pub listing: ProfileListing,
}

/// The sweep of one profile dir.
#[derive(Debug)]
pub struct ProfileSweep {
    /// The place of the profile dir in the target dir.
    pub place: usize,
    /// What goes, in order.
    pub removals: Vec<Removal>,
}

/// The entries of a target dir.
pub open spec fn entries_of(dirs: Seq<ProfileDir>) -> Seq<TargetEntry> {
    dirs.map_values(|d: ProfileDir| d.entry)
}

/// The places of the profile dirs that were swept.
pub open spec fn places_of(sweeps: Seq<ProfileSweep>) -> Seq<usize> {
    sweeps.map_values(|s: ProfileSweep| s.place)
}

/// What a run removes of an entry that it visits: what the regular sweep takes
/// where it covers the entry, else the pruned targets alone.
pub open spec fn entry_removals(
    dir: ProfileDir,
    live: LiveNames,
    opts: SweepOptions,
    now: Timestamp,
) -> Seq<Removal> {
    if is_in_scope(dir.entry, opts) {
        plan::profile_removals(dir.listing, live, opts, now)
    } else {
        plan::pruned_removals(dir.listing, opts)
    }
}

/// What a run removes of the profile dirs in a target dir, beside those that are
/// wiped as a whole: the regular sweep of each profile, or the one with the given
/// name, and the pruned targets across every profile.
pub fn sweep_target_dir(
    dirs: &Vec<ProfileDir>,
    live: &LiveSet,
    opts: &SweepOptions,
    now: Timestamp,
) -> (r: Vec<ProfileSweep>)
    ensures
        places_of(r@) == visited_profiles(entries_of(dirs@), *opts),
        forall|k: int|
            0 <= k < r@.len() ==> (#[trigger] r@[k]).place < dirs@.len() && r@[k].removals@
                == entry_removals(dirs@[r@[k].place as int], live@, *opts, now),
{
    let ghost entries = entries_of(dirs@);
    let ghost visited = |i: int| is_visited(entries[i], *opts);
    let mut out: Vec<ProfileSweep> = Vec::new();
    let mut i: usize = 0;
    assert(places_of(out@) =~= order::picks(0, visited));
    while i < dirs.len()
        invariant
            i <= dirs.len(),
            entries == entries_of(dirs@),
            visited == (|i: int| is_visited(entries[i], *opts)),
            places_of(out@) == order::picks(i as nat, visited),
            forall|k: int|
                0 <= k < out@.len() ==> (#[trigger] out@[k]).place < dirs@.len()
                    && out@[k].removals@ == entry_removals(
                    dirs@[out@[k].place as int],
                    live@,
                    *opts,
                    now,
                ),
        decreases dirs.len() - i,
    {
        let entry = &dirs[i].entry;
        assert(entries[i as int] == *entry);
        if visits(entry, opts) {
            let removals = if covers(entry, opts) {
                sweep_profile(&dirs[i].listing, live, opts, now)
            } else {
                prune_profile_targets(&dirs[i].listing, opts)
            };
            let ghost before = out@;
            out.push(ProfileSweep { place: i, removals });
            assert(places_of(out@) =~= places_of(before).push(i));
        }
        i = i + 1;
    }
    out
}

/// The sum of `sizes`.
pub open spec fn size_sum(sizes: Seq<u64>) -> int
    decreases sizes.len(),
{
    if sizes.len() == 0 {
        0
    } else {
        size_sum(sizes.drop_last()) + sizes.last()
    }
}

/// A longer list has no smaller sum.
proof fn lemma_size_sum(sizes: Seq<u64>, n: int)
    requires
        0 <= n <= sizes.len(),
    ensures
        0 <= size_sum(sizes.take(n)) <= size_sum(sizes),
    decreases sizes.len(),
{
    if n == sizes.len() {
        assert(sizes.take(n) =~= sizes);
        if n > 0 {
            lemma_size_sum(sizes.drop_last(), n - 1);
            assert(sizes.drop_last().take(n - 1) =~= sizes.drop_last());
        }
    } else {
        assert(sizes.drop_last().take(n) =~= sizes.take(n));
        lemma_size_sum(sizes.drop_last(), n);
    }
}

/// The size of a dir, given those of the files in it; `None` if it is past
/// 64 bits.
pub fn dir_size(sizes: &Vec<u64>) -> (r: Option<u64>)
    ensures
        match r {
            Some(total) => total == size_sum(sizes@),
            None => size_sum(sizes@) > u64::MAX,
        },
{
    let mut total: u64 = 0;
    let mut i: usize = 0;
    assert(sizes@.take(0) =~= Seq::empty());
    while i < sizes.len()
        invariant
            i <= sizes.len(),
            total == size_sum(sizes@.take(i as int)),
        decreases sizes.len() - i,
    {
        proof {
            assert(sizes@.take(i + 1).drop_last() =~= sizes@.take(i as int));
            lemma_size_sum(sizes@, i + 1);
        }
        match total.checked_add(sizes[i]) {
            Some(sum) => {
                total = sum;
            },
            None => {
                return None;
            },
        }
        i = i + 1;
    }
    assert(sizes@.take(sizes@.len() as int) =~= sizes@);
    Some(total)
}

/// `n` divided by `d`, rounded to the nearest integer, halves to the even one.
pub open spec fn round_half_even(n: nat, d: nat) -> nat {
    let twice = 2 * (n % d);
    if twice < d || (twice == d && (n / d) % 2 == 0) {
        n / d
    } else {
        n / d + 1
    }
}

/// How far apart the numbers of 53 significant bits are that lie around `n`.
pub open spec fn spacing(n: nat) -> nat
    decreases n,
{
    if n < 0x20_0000_0000_0000 {
        1
    } else {
        2 * spacing(n / 2)
    }
}

/// The number of 53 significant bits that is nearest to `n`.
pub open spec fn nearest_double(n: nat) -> nat {
    round_half_even(n, spacing(n)) * spacing(n)
}

/// How often `n` is divided by 1024 to be written.
pub open spec fn unit_index(n: nat) -> nat {
    if n < 0x400 {
        0
    } else if n < 0x10_0000 {
        1
    } else if n < 0x4000_0000 {
        2
    } else if n < 0x100_0000_0000 {
        3
    } else {
        4
    }
}

/// 1024 to the power of `k`, for `k` up to 4.
pub open spec fn unit_size(k: nat) -> nat {
    if k == 0 {
        1
    } else if k == 1 {
        0x400
    } else if k == 2 {
        0x10_0000
    } else if k == 3 {
        0x4000_0000
    } else {
        0x100_0000_0000
    }
}

/// The name of the `k`-th unit.
pub open spec fn unit_name(k: nat) -> char {
    if k == 0 {
        'B'
    } else if k == 1 {
        'K'
    } else if k == 2 {
        'M'
    } else if k == 3 {
        'G'
    } else {
        'T'
    }
}

/// A number of bytes as text: below 1024 as it stands, else in the largest unit
/// up to `T` that it fills, rounded to one decimal.
pub open spec fn human_text(bytes: nat) -> Seq<char> {
    let k = unit_index(bytes);
    if k == 0 {
        text::decimal(bytes) + seq![' ', 'B']
    } else {
        let tenths = round_half_even(10 * nearest_double(bytes), unit_size(k));
        text::decimal(tenths / 10) + seq!['.', text::digit_char((tenths % 10) as int)] + seq![
            ' ',
            unit_name(k),
        ]
    }
}

/// How far apart the numbers of 53 significant bits are that lie around `n`.
fn double_spacing(n: u64) -> (r: u64)
    ensures
        r == spacing(n as nat),
        r == 1 || r * 0x10_0000_0000_0000 <= n,
        1 <= r,
    decreases n,
{
    if n < 0x20_0000_0000_0000 {
        1
    } else {
        2 * double_spacing(n / 2)
    }
}

/// `n` divided by `d`, rounded to the nearest integer, halves to the even one.
fn rounded_quotient(n: u128, d: u128) -> (r: u128)
    requires
        0 < d <= 0x1_0000_0000_0000_0000,
        n <= 0xffff_ffff_ffff_ffff_ffff_ffff,
    ensures
        r == round_half_even(n as nat, d as nat),
        r <= n / d + 1,
{
    assert(n / d <= n) by (nonlinear_arith)
        requires
            d > 0,
    ;
    let q: u128 = n / d;
    let twice: u128 = 2 * (n % d);
    if twice < d || (twice == d && q % 2 == 0) {
        q
    } else {
        q + 1
    }
}

/// A number of bytes as text.
pub fn human(bytes: u64) -> (r: String)
    ensures
        r@ == human_text(bytes as nat),
{
    let mut out = String::new();
    if bytes < 0x400 {
        push_decimal(&mut out, bytes);
        out.push(' ');
        out.push('B');
        assert(out@ =~= human_text(bytes as nat));
        return out;
    }
    let (size, name): (u128, char) = if bytes < 0x10_0000 {
        (0x400, 'K')
    } else if bytes < 0x4000_0000 {
        (0x10_0000, 'M')
    } else if bytes < 0x100_0000_0000 {
        (0x4000_0000, 'G')
    } else {
        (0x100_0000_0000, 'T')
    };
    let step: u128 = double_spacing(bytes) as u128;
    let steps: u128 = rounded_quotient(bytes as u128, step);
    assert(steps * step <= bytes + step) by (nonlinear_arith)
        requires
            step >= 1,
            steps <= (bytes as u128) / step + 1,
    ;
    let near: u128 = steps * step;
    assert(near <= 0x1_0000_0000_0000_0fff);
    let tenths: u128 = rounded_quotient(10 * near, size);
    assert(tenths / 10 <= u64::MAX);
    push_decimal(&mut out, (tenths / 10) as u64);
    out.push('.');
    let d: u8 = 48 + (tenths % 10) as u8;
    out.push(d as char);
    out.push(' ');
    out.push(name);
    assert(out@ =~= human_text(bytes as nat));
    out
}

} // verus!
