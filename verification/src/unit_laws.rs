//! What holds of the dedup of units and of the pruning of targets.

use vstd::prelude::*;

use crate::inventory::{self, FingerprintDir, Stock, UnitFile};
use crate::listing::{CacheDir, ProfileListing};
use crate::live_set::LiveNames;
use crate::name_laws;
use crate::order;
use crate::plain;
use crate::plan;
use crate::sweep::{self, SweepOptions};
use crate::text;
use crate::text_laws;
use crate::timestamp::Timestamp;
use crate::units;

verus! {

broadcast use vstd::seq::group_seq_axioms;

/// The newest of the first `n` entries that belong to the unit of the entry `i`.
proof fn lemma_newest(dirs: Seq<FingerprintDir>, hashes: Set<Seq<char>>, i: int, n: int) -> (k: int)
    requires
        0 <= i < n <= dirs.len(),
        units::is_candidate(dirs[i], hashes),
    ensures
        0 <= k < n,
        units::is_candidate(dirs[k], hashes),
        units::same_unit(dirs[i], dirs[k]),
        forall|j: int|
            0 <= j < n && j != k && #[trigger] units::is_candidate(dirs[j], hashes)
                && units::same_unit(dirs[i], dirs[j]) ==> units::is_newer(dirs, k, j),
    decreases n,
{
    let last = n - 1;
    if i == last {
        // Start from some other entry of the unit, if there is one.
        if exists|j: int|
            0 <= j < last && #[trigger] units::is_candidate(dirs[j], hashes) && units::same_unit(
                dirs[i],
                dirs[j],
            ) {
            let j = choose|j: int|
                0 <= j < last && #[trigger] units::is_candidate(dirs[j], hashes)
                    && units::same_unit(dirs[i], dirs[j]);
            let k = lemma_newest(dirs, hashes, j, last);
            if units::is_newer(dirs, k, last) {
                k
            } else {
                last
            }
        } else {
            last
        }
    } else {
        let k = lemma_newest(dirs, hashes, i, last);
        if units::is_candidate(dirs[last], hashes) && units::same_unit(dirs[i], dirs[last])
            && units::is_newer(dirs, last, k) {
            last
        } else {
            k
        }
    }
}

/// **Of a workspace member's unit exactly the newest dir stays.** Dedup demotes
/// all dirs of the unit but one, which is newer than each of the others.
pub proof fn newest_of_a_member_unit_stays(
    dirs: Seq<FingerprintDir>,
    live: LiveNames,
    hashes: Set<Seq<char>>,
    i: int,
) -> (k: int)
    requires
        0 <= i < dirs.len(),
        units::is_candidate(dirs[i], hashes),
        live.members.contains(dirs[i].crate_name()),
    ensures
        0 <= k < dirs.len(),
        units::is_candidate(dirs[k], hashes),
        units::same_unit(dirs[i], dirs[k]),
        forall|j: int|
            0 <= j < dirs.len() && #[trigger] units::is_candidate(dirs[j], hashes)
                && units::same_unit(dirs[i], dirs[j]) ==> {
                &&& units::is_demoted(dirs, live, hashes, j) <==> j != k
                &&& j != k ==> units::is_newer(dirs, k, j)
            },
{
    let k = lemma_newest(dirs, hashes, i, dirs.len() as int);
    assert forall|j: int|
        0 <= j < dirs.len() && #[trigger] units::is_candidate(dirs[j], hashes) && units::same_unit(
            dirs[i],
            dirs[j],
        ) implies {
        &&& units::is_demoted(dirs, live, hashes, j) <==> j != k
        &&& j != k ==> units::is_newer(dirs, k, j)
    } by {
        if j == k && units::is_demoted(dirs, live, hashes, j) {
            let m = choose|m: int|
                0 <= m < dirs.len() && m != j && #[trigger] units::is_candidate(dirs[m], hashes)
                    && units::same_unit(dirs[j], dirs[m]) && units::is_newer(dirs, m, j);
            assert(units::same_unit(dirs[i], dirs[m]));
            assert(units::is_newer(dirs, k, m));
        }
    }
    k
}

/// **Of a dependency's unit with several dirs none stays, and the workspace goes
/// with it.** Both dirs of a pair are demoted, and no unit of a workspace member
/// is left in use.
pub proof fn superseded_dependency_takes_the_workspace(
    dirs: Seq<FingerprintDir>,
    live: LiveNames,
    stock: Stock,
    i: int,
    j: int,
)
    requires
        0 <= i < dirs.len(),
        0 <= j < dirs.len(),
        i != j,
        units::is_candidate(dirs[i], stock.live),
        units::is_candidate(dirs[j], stock.live),
        units::same_unit(dirs[i], dirs[j]),
        !live.members.contains(dirs[i].crate_name()),
    ensures
        units::is_demoted(dirs, live, stock.live, i),
        units::is_demoted(dirs, live, stock.live, j),
        !units::without_superseded(dirs, live, stock).live.contains(dirs[i].hash()),
        !units::without_superseded(dirs, live, stock).live.contains(dirs[j].hash()),
        forall|k: int|
            0 <= k < dirs.len() && #[trigger] units::is_member_unit(dirs[k], live)
                ==> !units::without_superseded(dirs, live, stock).live.contains(dirs[k].hash()),
{
    let n = dirs.len() as int;
    let demoted = |i: int| units::is_demoted(dirs, live, stock.live, i);
    let rest = units::without_demoted(dirs, live, stock);
    let zombie = |i: int| units::is_zombie(dirs, live, rest.live, i);
    assert(demoted(i));
    assert(demoted(j));
    assert(units::dependency_demoted(dirs, live, stock.live));
    assert(inventory::hashes_where(dirs, n, demoted).contains(dirs[i].hash()));
    assert(inventory::hashes_where(dirs, n, demoted).contains(dirs[j].hash()));
    assert forall|k: int|
        0 <= k < n && #[trigger] units::is_member_unit(dirs[k], live)
            implies !units::without_superseded(dirs, live, stock).live.contains(
        dirs[k].hash(),
    ) by {
        let h = dirs[k].hash();
        if rest.live.contains(h) {
            let first = units::lemma_first_member(dirs, live, h, k);
            assert(zombie(first));
            assert(inventory::hashes_where(dirs, n, zombie).contains(h));
        }
    }
}

/// **Units with one dir stay as they are.** Where no two dirs in use belong to
/// one unit, dedup changes nothing.
pub proof fn dedup_spares_single_units(dirs: Seq<FingerprintDir>, live: LiveNames, stock: Stock)
    requires
        forall|i: int, j: int|
            0 <= i < dirs.len() && 0 <= j < dirs.len() && i != j && #[trigger] units::is_candidate(
                dirs[i],
                stock.live,
            ) && #[trigger] units::is_candidate(dirs[j], stock.live) ==> !units::same_unit(
                dirs[i],
                dirs[j],
            ),
    ensures
        units::without_superseded(dirs, live, stock) == stock,
        !units::purges_caches(dirs, live, stock),
{
    let n = dirs.len();
    let demoted = |i: int| units::is_demoted(dirs, live, stock.live, i);
    let rest = units::without_demoted(dirs, live, stock);
    assert forall|i: int| 0 <= i < n implies !#[trigger] demoted(i) by {
        if demoted(i) {
            let j = choose|j: int|
                0 <= j < n && j != i && #[trigger] units::is_candidate(dirs[j], stock.live)
                    && units::same_unit(dirs[i], dirs[j]);
            assert(units::is_candidate(dirs[i], stock.live));
        }
    }
    order::lemma_picks_none(n, demoted);
    assert(inventory::hashes_where(dirs, n as int, demoted) =~= Set::<Seq<char>>::empty());
    assert(rest.live =~= stock.live);
    assert(rest.stale =~= stock.stale);
    assert(!units::dependency_demoted(dirs, live, stock.live)) by {
        if units::dependency_demoted(dirs, live, stock.live) {
            let i = choose|i: int|
                0 <= i < n && #[trigger] units::is_demoted(dirs, live, stock.live, i)
                    && !live.members.contains(dirs[i].crate_name());
            assert(demoted(i));
        }
    }
}

/// Whether two sets of options for one profile differ only in that the first prunes
/// no target.
pub open spec fn is_without_prunes(plain: SweepOptions, opts: SweepOptions) -> bool {
    &&& plain.prune_targets@.len() == 0
    &&& plain.dry_run == opts.dry_run
    &&& plain.keep_sessions == opts.keep_sessions
    &&& plain.max_age_cutoff == opts.max_age_cutoff
}

/// **Pruning takes the target and nothing beside it.** Compared with the same
/// sweep without pruning, the hashes that are no longer in use are those of the
/// target's units, and the fingerprint dirs that go in addition are the target's.
pub proof fn pruning_takes_the_target_only(
    profile: ProfileListing,
    live: LiveNames,
    opts: SweepOptions,
    plain: SweepOptions,
    now: Timestamp,
    h: Seq<char>,
    i: usize,
)
    requires
        is_without_prunes(plain, opts),
    ensures
        plan::settled_stock(profile, live, opts, now).live.contains(h) <==> plan::settled_stock(
            profile,
            live,
            plain,
            now,
        ).live.contains(h) && !units::is_pruned_hash(
            profile.fingerprints@,
            units::prune_names(opts.prune_targets@),
            h,
        ),
        plan::settled_stock(profile, live, opts, now).stale.contains(i) <==> plan::settled_stock(
            profile,
            live,
            plain,
            now,
        ).stale.contains(i) || (i < profile.fingerprints@.len() && units::is_pruned(
            profile.fingerprints@[i as int],
            units::prune_names(opts.prune_targets@),
        )),
{
    let dirs = profile.fingerprints@;
    let n = dirs.len();
    assert(n == profile.fingerprints.len());
    let prunes = units::prune_names(opts.prune_targets@);
    let none = units::prune_names(plain.prune_targets@);
    assert(none =~= Set::empty());
    let s0 = inventory::taken_stock(dirs, live, opts.max_age_cutoff, now);
    let s2 = units::without_superseded(dirs, live, s0);
    let pruned = |i: int| units::is_pruned(dirs[i], prunes);
    let promoted = |i: int| units::is_promoted(dirs, prunes, s2, i);
    let pruned_none = |i: int| units::is_pruned(dirs[i], none);
    let promoted_none = |i: int| units::is_promoted(dirs, none, s2, i);
    order::lemma_picks(n, promoted);
    order::lemma_picks_none(n, promoted_none);
    order::lemma_concat_contains(s2.stale, order::picks(n, promoted), i);
    order::lemma_concat_contains(s2.stale, order::picks(n, promoted_none), i);
    assert(inventory::hashes_where(dirs, n as int, pruned_none) =~= Set::<Seq<char>>::empty());
    let hashes = inventory::hashes_where(dirs, n as int, pruned);
    if hashes.contains(h) {
        let k = choose|k: int| 0 <= k < n && #[trigger] pruned(k) && h == dirs[k].hash();
        assert(units::is_pruned(dirs[k], prunes));
    }
    if units::is_pruned_hash(dirs, prunes, h) {
        let k = choose|k: int|
            0 <= k < n && #[trigger] units::is_pruned(dirs[k], prunes) && dirs[k].hash() == h;
        assert(pruned(k));
    }
}

/// **Either form names a target.** A name is that of a pruned target exactly if it
/// agrees with one of the targets given in all but `-` and `_`. So do the units,
/// the incremental caches and the files that are pruned: whichever form is given,
/// what is named in either form goes.
pub proof fn either_form_names_a_target(
    targets: Seq<String>,
    name: Seq<char>,
    d: FingerprintDir,
    c: CacheDir,
    filename: Seq<char>,
)
    ensures
        ({
            let prunes = units::prune_names(targets);
            let root = sweep::artifact_root(filename);
            &&& units::is_prune_name(name, prunes) <==> is_target_form(targets, name)
            &&& units::is_pruned(d, prunes) <==> d.unit() is Some && is_target_form(
                targets,
                d.crate_name(),
            )
            &&& plan::is_pruned_cache(c, prunes) <==> c.cached_crate() is Some && is_target_form(
                targets,
                c.cached_crate()->0,
            )
            &&& sweep::is_pruned_file(filename, prunes) <==> is_target_form(targets, root) || (
            sweep::behind_lib(root) is Some && is_target_form(
                targets,
                sweep::behind_lib(root)->0,
            ))
        }),
{
    lemma_prune_name(targets, name);
    lemma_prune_name(targets, d.crate_name());
    lemma_prune_name(targets, c.cached_crate()->0);
    lemma_pruned_file(targets, filename);
}

/// Whether `name` agrees with one of the targets in all but `-` and `_`.
pub open spec fn is_target_form(targets: Seq<String>, name: Seq<char>) -> bool {
    exists|i: int|
        0 <= i < targets.len() && inventory::snake(name) == inventory::snake(
            (#[trigger] targets[i])@,
        )
}

/// What the prune names hold is what agrees with a target.
proof fn lemma_prune_name(targets: Seq<String>, name: Seq<char>)
    ensures
        units::is_prune_name(name, units::prune_names(targets)) <==> is_target_form(targets, name),
{
    let prunes = units::prune_names(targets);
    let snaked = inventory::snake(name);
    assert(inventory::snake(snaked) =~= snaked);
    if prunes.contains(name) {
        let i = choose|i: int|
            0 <= i < targets.len() && (name == #[trigger] targets[i]@ || name == inventory::snake(
                targets[i]@,
            ));
        let t = inventory::snake(targets[i]@);
        assert(inventory::snake(t) =~= t);
    }
    if prunes.contains(snaked) {
        let i = choose|i: int|
            0 <= i < targets.len() && (snaked == #[trigger] targets[i]@ || snaked
                == inventory::snake(targets[i]@));
    }
    if is_target_form(targets, name) {
        let i = choose|i: int|
            0 <= i < targets.len() && snaked == inventory::snake((#[trigger] targets[i])@);
        assert(prunes.contains(snaked));
    }
}

/// Whether the JSON object `json` gives `key` the value `n`: behind the first
/// `"key":`, and white space, stands `n` in digits.
pub open spec fn gives_value(json: Seq<char>, key: Seq<char>, n: nat) -> bool {
    exists|at: int, from: int|
        #![trigger plain::is_first_at(json, quoted(key), at), plain::is_at(json, text::decimal(n), from)]
        plain::is_first_at(json, quoted(key), at) && at + key.len() + 3 <= from
            && plain::is_all_blank(json.subrange(at + key.len() + 3, from)) && plain::is_at(
            json,
            text::decimal(n),
            from,
        ) && ends_number(json, from + text::decimal(n).len())
}

/// `key` in quotation marks and a colon.
pub open spec fn quoted(key: Seq<char>) -> Seq<char> {
    seq!['"'] + key + seq!['"', ':']
}

/// Whether no further digit stands at `at`.
pub open spec fn ends_number(json: Seq<char>, at: int) -> bool {
    at >= json.len() || (json[at] as int) < 48 || 57 < json[at] as int
}

/// **A record is read as it is written.** The number that a JSON object gives a
/// key is read if it fits 64 bits, and nothing is read where the key is missing.
pub proof fn json_numbers_are_read(json: Seq<char>, key: Seq<char>, n: nat)
    ensures
        gives_value(json, key, n) && n <= u64::MAX ==> units::json_number(json, key) == Some(
            n as int,
        ),
        gives_value(json, key, n) && n > u64::MAX ==> units::json_number(json, key) is None,
        (forall|at: int| !#[trigger] plain::is_at(json, quoted(key), at)) ==> units::json_number(
            json,
            key,
        ) is None,
{
    let label = quoted(key);
    assert(units::json_label(key) =~= label);
    assert(label.len() == key.len() + 3);
    text_laws::first_occurrence_is_found(json, label);
    if gives_value(json, key, n) {
        let (at, from) = choose|at: int, from: int|
            #![trigger plain::is_first_at(json, quoted(key), at), plain::is_at(json, text::decimal(n), from)]
            plain::is_first_at(json, quoted(key), at) && at + key.len() + 3 <= from
                && plain::is_all_blank(json.subrange(at + key.len() + 3, from)) && plain::is_at(
                json,
                text::decimal(n),
                from,
            ) && ends_number(json, from + text::decimal(n).len());
        let digits = text::decimal(n);
        assert(text::occurrence(json, label) == Some(at)) by {
            match text::occurrence(json, label) {
                Some(k) => {
                    assert(plain::is_at(json, label, k) && plain::is_at(json, label, at));
                },
                None => {
                    assert(plain::is_at(json, label, at));
                },
            }
        }
        let blank = json.subrange(at + label.len(), from);
        let tail = json.skip(from);
        text::decimal_reads_back(n, n as int);
        assert forall|i: int| 0 <= i < digits.len() implies text::is_digit(#[trigger] tail[i]) by {
            assert(json[from + i] == digits[i]);
            assert(text::is_digit(digits[i]));
        }
        assert(text::is_digit(tail[0]));
        assert(json.skip(at + label.len()) =~= blank + tail);
        text_laws::lemma_skipped(blank, tail);
        units::lemma_leading_digits(tail, digits.len() as int);
        assert(tail.take(digits.len() as int) =~= digits) by {
            assert forall|i: int| 0 <= i < digits.len() implies tail[i] == digits[i] by {
                assert(json[from + i] == digits[i]);
            }
        }
        text_laws::written_numbers_are_read(n, u64::MAX as int);
        assert(text::is_digit(digits[0]));
        assert(text::unsigned_value(digits, u64::MAX as int) == text::decimal_value(
            digits,
            u64::MAX as int,
        ));
    }
}

/// **A value that is no number is not read.**
pub proof fn other_json_values_are_not_read(json: Seq<char>, key: Seq<char>, at: int, from: int)
    requires
        plain::is_first_at(json, quoted(key), at),
        at + key.len() + 3 <= from <= json.len(),
        plain::is_all_blank(json.subrange(at + key.len() + 3, from)),
        from < json.len() ==> !plain::is_blank(json[from]),
        ends_number(json, from),
    ensures
        units::json_number(json, key) is None,
{
    let label = quoted(key);
    assert(units::json_label(key) =~= label);
    assert(label.len() == key.len() + 3);
    text_laws::first_occurrence_is_found(json, label);
    assert(text::occurrence(json, label) == Some(at)) by {
        match text::occurrence(json, label) {
            Some(k) => {
                assert(plain::is_at(json, label, k) && plain::is_at(json, label, at));
            },
            None => {
                assert(plain::is_at(json, label, at));
            },
        }
    }
    let blank = json.subrange(at + label.len(), from);
    let tail = json.skip(from);
    assert(json.skip(at + label.len()) =~= blank + tail);
    text_laws::lemma_skipped(blank, tail);
}

/// **A unit is recorded by target and profile.** The first file of a fingerprint
/// dir that ends in `.json` decides which unit the dir belongs to: the unit with
/// the target and the profile that the file names.
pub proof fn unit_is_recorded_by_target_and_profile(
    files: Seq<UnitFile>,
    k: int,
    target: nat,
    profile: nat,
)
    requires
        0 <= k < files.len(),
        forall|i: int|
            0 <= i < k ==> ((#[trigger] files[i]) matches UnitFile::File { name, .. } && !ends_in_json(
                name@,
            )),
        files[k] matches UnitFile::File { name, contents: Some(text) } && ends_in_json(name@)
            && gives_value(text@, "target"@, target) && gives_value(text@, "profile"@, profile),
        target <= u64::MAX,
        profile <= u64::MAX,
    ensures
        units::unit_key(files) == Some((target as int, profile as int)),
    decreases k,
{
    lemma_json_name(files[k]);
    if k > 0 {
        assert(files[0] matches UnitFile::File { name, .. } && !ends_in_json(name@));
        lemma_json_name(files[0]);
        let rest = files.drop_first();
        assert forall|i: int| 0 <= i < k - 1 implies ((#[trigger] rest[i]) matches UnitFile::File {
            name,
            ..
        } && !ends_in_json(name@)) by {
            assert(rest[i] == files[i + 1]);
        }
        unit_is_recorded_by_target_and_profile(rest, k - 1, target, profile);
    } else {
        match files[0] {
            UnitFile::File { name, contents: Some(text) } => {
                json_numbers_are_read(text@, "target"@, target);
                json_numbers_are_read(text@, "profile"@, profile);
            },
            _ => {},
        }
    }
}

/// Whether a file name ends in `.json`.
pub open spec fn ends_in_json(name: Seq<char>) -> bool {
    exists|base: Seq<char>| name == #[trigger] (base + ".json"@)
}

/// A record is told by its ending.
proof fn lemma_json_name(f: UnitFile)
    ensures
        f matches UnitFile::File { name, .. } ==> units::is_record(name@) == ends_in_json(name@),
{
    match f {
        UnitFile::File { name, .. } => {
            let s = name@;
            let tail = ".json"@;
            if units::is_record(s) {
                assert(s =~= s.take(s.len() - tail.len()) + tail);
            }
            if ends_in_json(s) {
                let base = choose|base: Seq<char>| s == #[trigger] (base + tail);
                assert(s.subrange(s.len() - tail.len(), s.len() as int) =~= tail);
            }
        },
        _ => {},
    }
}

/// **A unit that is not recorded is not told.** A fingerprint dir without a file
/// that ends in `.json` belongs to no unit that could be told, nor does one where
/// an entry before such a file could not be listed, where the file could not be
/// read, or where it names no target or no profile.
pub proof fn unrecorded_unit_is_not_told(files: Seq<UnitFile>, k: int)
    requires
        0 <= k <= files.len(),
        forall|i: int|
            0 <= i < k ==> ((#[trigger] files[i]) matches UnitFile::File { name, .. } && !ends_in_json(
                name@,
            )),
        k < files.len() ==> match files[k] {
            UnitFile::Unreadable => true,
            UnitFile::File { name, contents: None } => ends_in_json(name@),
            UnitFile::File { name, contents: Some(text) } => ends_in_json(name@) && ((forall|
                at: int,
            |
                !#[trigger] plain::is_at(text@, quoted("target"@), at)) || (forall|at: int|
                !#[trigger] plain::is_at(text@, quoted("profile"@), at))),
        },
    ensures
        units::unit_key(files) is None,
    decreases k,
{
    if k > 0 {
        assert(files[0] matches UnitFile::File { name, .. } && !ends_in_json(name@));
        lemma_json_name(files[0]);
        let rest = files.drop_first();
        assert forall|i: int| 0 <= i < k - 1 implies ((#[trigger] rest[i]) matches UnitFile::File {
            name,
            ..
        } && !ends_in_json(name@)) by {
            assert(rest[i] == files[i + 1]);
        }
        unrecorded_unit_is_not_told(rest, k - 1);
    } else if files.len() > 0 {
        lemma_json_name(files[0]);
        match files[0] {
            UnitFile::File { name, contents: Some(text) } => {
                json_numbers_are_read(text@, "target"@, 0);
                json_numbers_are_read(text@, "profile"@, 0);
            },
            _ => {},
        }
    }
}

/// **A target is pruned under any name that differs in dashes alone.**
pub proof fn target_is_pruned_whatever_its_dashes(
    targets: Seq<String>,
    name: Seq<char>,
    f: Seq<char>,
)
    ensures
        units::is_prune_name(name, units::prune_names(targets)) <==> plain::is_one_but_dashes(
            targets,
            name,
        ),
        sweep::is_pruned_file(f, units::prune_names(targets)) <==> exists|x: Seq<char>| #[trigger]
            plain::is_one_but_dashes(targets, x) && name_laws::is_file_of(f, x),
{
    let prunes = units::prune_names(targets);
    lemma_prune_name(targets, name);
    lemma_target_form(targets, name);
    let all = Set::new(|x: Seq<char>| plain::is_one_but_dashes(targets, x));
    name_laws::file_belongs_to_the_target_it_spells(f, all);
    if exists|x: Seq<char>| #[trigger] all.contains(x) && name_laws::is_file_of(f, x) {
        let x = choose|x: Seq<char>| #[trigger] all.contains(x) && name_laws::is_file_of(f, x);
        assert(plain::is_one_but_dashes(targets, x));
    }
    if exists|x: Seq<char>| #[trigger]
        plain::is_one_but_dashes(targets, x) && name_laws::is_file_of(f, x) {
        let x = choose|x: Seq<char>| #[trigger]
            plain::is_one_but_dashes(targets, x) && name_laws::is_file_of(f, x);
        assert(all.contains(x));
    }
    let root = sweep::artifact_root(f);
    lemma_target_form(targets, root);
    if sweep::behind_lib(root) is Some {
        lemma_target_form(targets, sweep::behind_lib(root)->0);
    }
    lemma_pruned_file(targets, f);
}

/// A name that agrees with a target in all but dashes.
proof fn lemma_target_form(targets: Seq<String>, name: Seq<char>)
    ensures
        is_target_form(targets, name) <==> plain::is_one_but_dashes(targets, name),
{
    if is_target_form(targets, name) {
        let i = choose|i: int|
            0 <= i < targets.len() && inventory::snake(name) == inventory::snake(
                (#[trigger] targets[i])@,
            );
        name_laws::snake_case_has_underscores_for_dashes(targets[i]@, name);
    }
    if plain::is_one_but_dashes(targets, name) {
        let i = choose|i: int|
            0 <= i < targets.len() && plain::is_same_but_dashes((#[trigger] targets[i])@, name);
        name_laws::snake_case_has_underscores_for_dashes(targets[i]@, name);
    }
}

/// A file that is named for a target in either form.
proof fn lemma_pruned_file(targets: Seq<String>, f: Seq<char>)
    ensures
        ({
            let root = sweep::artifact_root(f);
            sweep::is_pruned_file(f, units::prune_names(targets)) <==> is_target_form(targets, root)
                || (sweep::behind_lib(root) is Some && is_target_form(
                targets,
                sweep::behind_lib(root)->0,
            ))
        }),
{
    let root = sweep::artifact_root(f);
    lemma_prune_name(targets, root);
    let snaked = inventory::snake(root);
    if sweep::behind_lib(root) is Some {
        let rest = sweep::behind_lib(root)->0;
        lemma_prune_name(targets, rest);
        assert(snaked.skip(3) =~= inventory::snake(rest));
    } else if sweep::behind_lib(snaked) is Some {
        assert(snaked[0] == root[0] && snaked[1] == root[1] && snaked[2] == root[2]);
    }
}

} // verus!
