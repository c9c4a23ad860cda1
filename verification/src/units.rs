//! Which compilation unit a fingerprint dir belongs to, and which fingerprint
//! dirs of a unit are superseded.

use vstd::prelude::*;

use crate::inventory::{self, to_snake, FingerprintDir, Inventory, Stock, UnitFile};
use crate::listing::CacheDir;
use crate::live_set::{LiveNames, LiveSet};
use crate::names::NameSet;
use crate::order;
use crate::text::{self, chars_of, find_text, read_digits, skip_white, stands_at};
use crate::timestamp::Timestamp;

verus! {

broadcast use vstd::seq::group_seq_axioms;

/// The digits that `s` begins with.
pub open spec fn leading_digits(s: Seq<char>) -> Seq<char>
    decreases s.len(),
{
    if s.len() > 0 && text::is_digit(s[0]) {
        seq![s[0]] + leading_digits(s.drop_first())
    } else {
        Seq::empty()
    }
}

/// What stands in front of the value of `key` in a JSON object.
pub open spec fn json_label(key: Seq<char>) -> Seq<char> {
    seq!['"'] + key + seq!['"', ':']
}

/// The integer that stands behind the first `"key":` of `json`.
pub open spec fn json_number(json: Seq<char>, key: Seq<char>) -> Option<int> {
    match text::occurrence(json, json_label(key)) {
        None => None,
        Some(at) => {
            let digits = leading_digits(text::trim_front(json.skip(at + json_label(key).len())));
            if digits.len() == 0 {
                None
            } else {
                match text::decimal_value(digits, u64::MAX as int) {
                    Ok(n) => Some(n),
                    Err(_) => None,
                }
            }
        },
    }
}

/// The digits at the front of `s` are those up to the first other character.
pub proof fn lemma_leading_digits(s: Seq<char>, n: int)
    requires
        0 <= n <= s.len(),
        forall|i: int| 0 <= i < n ==> text::is_digit(#[trigger] s[i]),
        n < s.len() ==> !text::is_digit(s[n]),
    ensures
        leading_digits(s) == s.take(n),
    decreases n,
{
    if n > 0 {
        let t = s.drop_first();
        assert forall|i: int| 0 <= i < n - 1 implies text::is_digit(#[trigger] t[i]) by {
            assert(t[i] == s[i + 1]);
        }
        lemma_leading_digits(t, n - 1);
        assert(s.take(n) =~= seq![s[0]] + t.take(n - 1));
    } else {
        assert(s.take(0) =~= Seq::<char>::empty());
    }
}

/// Extract an integer value for a given key from a flat JSON object.
/// Handles the format `"key":12345` with optional whitespace.
pub fn extract_json_u64(json: &str, key: &str) -> (r: Option<u64>)
    ensures
        match r {
            Some(n) => json_number(json@, key@) == Some(n as int),
            None => json_number(json@, key@) is None,
        },
{
    let hay = chars_of(json);
    let mut label: Vec<char> = Vec::new();
    label.push('"');
    for c in it: key.chars()
        invariant
            label@ == seq!['"'] + it.seq().take(it.index()),
            it.seq() == key@,
    {
        label.push(c);
    }
    label.push('"');
    label.push(':');
    proof {
        assert(key@.take(key@.len() as int) =~= key@);
        assert(label@ =~= json_label(key@));
    }
    match find_text(&hay, &label) {
        None => None,
        Some(at) => {
            let from: usize = at + label.len();
            let start: usize = skip_white(&hay, from, hay.len());
            let mut end: usize = start;
            while end < hay.len() && text::digit(hay[end])
                invariant
                    start <= end <= hay.len(),
                    forall|i: int| start <= i < end ==> text::is_digit(#[trigger] hay@[i]),
                decreases hay.len() - end,
            {
                end = end + 1;
            }
            proof {
                assert(hay@.subrange(from as int, hay@.len() as int) =~= json@.skip(from as int));
                let rest = hay@.subrange(start as int, hay@.len() as int);
                lemma_leading_digits(rest, end - start);
                assert(rest.take(end - start) =~= hay@.subrange(start as int, end as int));
            }
            if end == start {
                return None;
            }
            match read_digits(&hay, start, end, u64::MAX) {
                Ok(n) => Some(n),
                Err(_) => None,
            }
        },
    }
}

/// Whether a file of a fingerprint dir records which unit the dir belongs to.
pub open spec fn is_record(name: Seq<char>) -> bool {
    ".json"@.is_suffix_of(name)
}

/// The target and the profile that a unit record names.
pub open spec fn recorded_key(contents: Seq<char>) -> Option<(int, int)> {
    match (json_number(contents, "target"@), json_number(contents, "profile"@)) {
        (Some(target), Some(profile)) => Some((target, profile)),
        _ => None,
    }
}

/// The target and the profile of the unit whose fingerprint dir holds `files`:
/// the first record decides.
pub open spec fn unit_key(files: Seq<UnitFile>) -> Option<(int, int)>
    decreases files.len(),
{
    if files.len() == 0 {
        None
    } else {
        match files[0] {
            UnitFile::Unreadable => None,
            UnitFile::File { name, contents } => if !is_record(name@) {
                unit_key(files.drop_first())
            } else {
                match contents {
                    Some(contents) => recorded_key(contents@),
                    None => None,
                }
            },
        }
    }
}

/// Whether a file of a fingerprint dir records which unit the dir belongs to.
/// The record is named like `lib-<crate>.json` or `test-lib-<crate>.json`.
pub fn is_unit_record(name: &str) -> (r: bool)
    ensures
        r == is_record(name@),
{
    let v = chars_of(name);
    let suffix = chars_of(".json");
    if suffix.len() > v.len() {
        return false;
    }
    let at: usize = v.len() - suffix.len();
    proof {
        let tail = v@.skip(at as int);
        assert(tail.subrange(0, suffix@.len() as int) =~= v@.subrange(at as int, v@.len() as int));
    }
    stands_at(&v, at, &suffix)
}

/// The (target, profile) pair that identifies which compilation unit produced
/// the artifacts of a fingerprint dir. Returns None if there is no record, or
/// the record can't be read or parsed.
pub fn read_unit_key(files: &Vec<UnitFile>) -> (r: Option<(u64, u64)>)
    ensures
        match r {
            Some((target, profile)) => unit_key(files@) == Some((target as int, profile as int)),
            None => unit_key(files@) is None,
        },
{
    let mut i: usize = 0;
    assert(files@.skip(0) =~= files@);
    while i < files.len()
        invariant
            i <= files.len(),
            unit_key(files@) == unit_key(files@.skip(i as int)),
        decreases files.len() - i,
    {
        proof {
            assert(files@.skip(i as int)[0] == files@[i as int]);
            assert(files@.skip(i as int).drop_first() =~= files@.skip(i + 1));
        }
        match &files[i] {
            UnitFile::Unreadable => {
                return None;
            },
            UnitFile::File { name, contents } => {
                if is_unit_record(name.as_str()) {
                    return match contents {
                        None => None,
                        Some(contents) => {
                            let target = extract_json_u64(contents.as_str(), "target");
                            let profile = extract_json_u64(contents.as_str(), "profile");
                            match (target, profile) {
                                (Some(target), Some(profile)) => Some((target, profile)),
                                _ => None,
                            }
                        },
                    };
                }
            },
        }
        i = i + 1;
    }
    None
}

/// Whether an entry of `.fingerprint/` is in use and says which unit it belongs to.
pub open spec fn is_candidate(d: FingerprintDir, hashes: Set<Seq<char>>) -> bool {
    d.unit() is Some && hashes.contains(d.hash()) && unit_key(d.files@) is Some
}

/// Whether two fingerprint dirs belong to the same compilation unit.
pub open spec fn same_unit(a: FingerprintDir, b: FingerprintDir) -> bool {
    a.crate_name() == b.crate_name() && unit_key(a.files@) == unit_key(b.files@)
}

/// When a fingerprint dir was last invoked, the epoch where that is not known.
pub open spec fn stamp(d: FingerprintDir) -> int {
    match d.invoked {
        Some(t) => t@,
        None => 0,
    }
}

/// Whether the entry `j` is newer than the entry `i`; of two of the same age the
/// one listed first counts as newer.
pub open spec fn is_newer(dirs: Seq<FingerprintDir>, j: int, i: int) -> bool {
    stamp(dirs[j]) > stamp(dirs[i]) || (stamp(dirs[j]) == stamp(dirs[i]) && j < i)
}

/// Whether the entry `i` shares its unit with another entry that displaces it.
/// For a workspace member only a newer entry does; for a dependency any does.
pub open spec fn is_demoted(
    dirs: Seq<FingerprintDir>,
    live: LiveNames,
    hashes: Set<Seq<char>>,
    i: int,
) -> bool {
    is_candidate(dirs[i], hashes) && exists|j: int|
        0 <= j < dirs.len() && j != i && #[trigger] is_candidate(dirs[j], hashes) && same_unit(
            dirs[i],
            dirs[j],
        ) && (live.members.contains(dirs[i].crate_name()) ==> is_newer(dirs, j, i))
}

/// Whether some demoted entry belongs to a dependency.
pub open spec fn dependency_demoted(
    dirs: Seq<FingerprintDir>,
    live: LiveNames,
    hashes: Set<Seq<char>>,
) -> bool {
    exists|i: int|
        0 <= i < dirs.len() && #[trigger] is_demoted(dirs, live, hashes, i)
            && !live.members.contains(dirs[i].crate_name())
}

/// The inventory once the demoted entries are taken out.
pub open spec fn without_demoted(dirs: Seq<FingerprintDir>, live: LiveNames, stock: Stock) -> Stock {
    let demoted = |i: int| is_demoted(dirs, live, stock.live, i);
    Stock {
        live: stock.live.difference(inventory::hashes_where(dirs, dirs.len() as int, demoted)),
        stale: stock.stale + order::picks(dirs.len(), demoted),
    }
}

/// Whether an entry of `.fingerprint/` is a unit of a workspace member.
pub open spec fn is_member_unit(d: FingerprintDir, live: LiveNames) -> bool {
    d.unit() is Some && live.members.contains(d.crate_name())
}

/// Whether the entry `i` is a workspace member in use. Of entries with one hash
/// the first counts.
pub open spec fn is_zombie(
    dirs: Seq<FingerprintDir>,
    live: LiveNames,
    hashes: Set<Seq<char>>,
    i: int,
) -> bool {
    &&& is_member_unit(dirs[i], live)
    &&& hashes.contains(dirs[i].hash())
    &&& forall|j: int|
        0 <= j < i && #[trigger] is_member_unit(dirs[j], live) ==> dirs[j].hash() != dirs[i].hash()
}

/// Whether any workspace member is in use.
pub open spec fn any_zombie(
    dirs: Seq<FingerprintDir>,
    live: LiveNames,
    hashes: Set<Seq<char>>,
) -> bool {
    exists|i: int| 0 <= i < dirs.len() && #[trigger] is_zombie(dirs, live, hashes, i)
}

/// The inventory once the workspace members are taken out.
pub open spec fn without_zombies(dirs: Seq<FingerprintDir>, live: LiveNames, stock: Stock) -> Stock {
    let zombie = |i: int| is_zombie(dirs, live, stock.live, i);
    Stock {
        live: stock.live.difference(inventory::hashes_where(dirs, dirs.len() as int, zombie)),
        stale: stock.stale + order::picks(dirs.len(), zombie),
    }
}

/// The inventory once superseded fingerprints are taken out: the demoted ones,
/// and with a demoted dependency all of the workspace, which was compiled
/// against it.
pub open spec fn without_superseded(dirs: Seq<FingerprintDir>, live: LiveNames, stock: Stock) -> Stock {
    let rest = without_demoted(dirs, live, stock);
    if dependency_demoted(dirs, live, stock.live) {
        without_zombies(dirs, live, rest)
    } else {
        rest
    }
}

/// Whether the sweep takes the incremental caches of the workspace with it.
pub open spec fn purges_caches(dirs: Seq<FingerprintDir>, live: LiveNames, stock: Stock) -> bool {
    dependency_demoted(dirs, live, stock.live) && any_zombie(
        dirs,
        live,
        without_demoted(dirs, live, stock).live,
    )
}

/// Whether an incremental cache belongs to a workspace member.
pub open spec fn is_member_cache(d: CacheDir, live: LiveNames) -> bool {
    d.cached_crate() is Some && live.is_member_prefix(d.cached_crate()->0)
}

/// The incremental caches of the workspace, if the sweep takes them.
pub open spec fn purged_caches(
    dirs: Seq<FingerprintDir>,
    caches: Seq<CacheDir>,
    live: LiveNames,
    stock: Stock,
) -> Seq<usize> {
    if purges_caches(dirs, live, stock) {
        order::picks(caches.len(), |i: int| is_member_cache(caches[i], live))
    } else {
        Seq::empty()
    }
}

/// What dedup reads of a fingerprint dir.
struct Candidate {
    crate_name: String,
    hash: String,
    key: (u64, u64),
    stamp: Timestamp,
}

/// Whether `c` is what dedup reads of `d`.
spec fn describes(c: Option<Candidate>, d: FingerprintDir, hashes: Set<Seq<char>>) -> bool {
    match c {
        None => !is_candidate(d, hashes),
        Some(c) => {
            &&& is_candidate(d, hashes)
            &&& d.crate_name() == c.crate_name@
            &&& d.hash() == c.hash@
            &&& unit_key(d.files@) == Some((c.key.0 as int, c.key.1 as int))
            &&& stamp(d) == c.stamp@
        },
    }
}

/// What dedup reads of each fingerprint dir.
fn candidates(dirs: &Vec<FingerprintDir>, hashes: &NameSet) -> (r: Vec<Option<Candidate>>)
    ensures
        r@.len() == dirs@.len(),
        forall|i: int| 0 <= i < dirs@.len() ==> describes(#[trigger] r@[i], dirs@[i], hashes@),
{
    let mut out: Vec<Option<Candidate>> = Vec::new();
    let mut i: usize = 0;
    while i < dirs.len()
        invariant
            i <= dirs.len(),
            out@.len() == i,
            forall|k: int| 0 <= k < i ==> describes(#[trigger] out@[k], dirs@[k], hashes@),
        decreases dirs.len() - i,
    {
        let dir = &dirs[i];
        let mut found: Option<Candidate> = None;
        if let Some((crate_name, hash)) = dir.unit_name() {
            if hashes.contains(hash) {
                // Where the unit can't be told, the dir is left alone.
                if let Some(key) = read_unit_key(&dir.files) {
                    let stamp = match dir.invoked {
                        Some(t) => t,
                        None => Timestamp::epoch(),
                    };
                    found = Some(
                        Candidate {
                            crate_name: crate_name.to_owned(),
                            hash: hash.to_owned(),
                            key,
                            stamp,
                        },
                    );
                }
            }
        }
        out.push(found);
        i = i + 1;
    }
    out
}

/// Whether another entry displaces the candidate `c`, which is the entry `i`.
fn displaced(
    dirs: &Vec<FingerprintDir>,
    table: &Vec<Option<Candidate>>,
    live: &LiveSet,
    hashes: Ghost<Set<Seq<char>>>,
    i: usize,
    c: &Candidate,
) -> (r: bool)
    requires
        i < dirs.len(),
        table@.len() == dirs@.len(),
        forall|k: int| 0 <= k < dirs@.len() ==> describes(#[trigger] table@[k], dirs@[k], hashes@),
        table@[i as int] == Some(*c),
    ensures
        r == is_demoted(dirs@, live@, hashes@, i as int),
{
    let is_member = live.is_workspace_member(c.crate_name.as_str());
    assert(describes(table@[i as int], dirs@[i as int], hashes@));
    let mut j: usize = 0;
    while j < table.len()
        invariant
            j <= table.len(),
            i < dirs.len(),
            table@.len() == dirs@.len(),
            forall|k: int|
                0 <= k < dirs@.len() ==> describes(#[trigger] table@[k], dirs@[k], hashes@),
            describes(Some(*c), dirs@[i as int], hashes@),
            is_member == live@.members.contains(dirs@[i as int].crate_name()),
            forall|k: int|
                0 <= k < j && k != i && #[trigger] is_candidate(dirs@[k], hashes@) && same_unit(
                    dirs@[i as int],
                    dirs@[k],
                ) ==> is_member && !is_newer(dirs@, k, i as int),
        decreases table.len() - j,
    {
        assert(describes(table@[j as int], dirs@[j as int], hashes@));
        if j != i {
            if let Some(other) = &table[j] {
                if other.key.0 == c.key.0 && other.key.1 == c.key.1 && other.crate_name
                    == c.crate_name {
                    let newer = other.stamp.nanos > c.stamp.nanos || (other.stamp.nanos
                        == c.stamp.nanos && j < i);
                    if !is_member || newer {
                        return true;
                    }
                }
            }
        }
        j = j + 1;
    }
    false
}

/// Dedup fingerprints within the same compilation unit.
///
/// Cargo's fingerprint dirs can accumulate when the metadata hash changes
/// (e.g. features toggled, dependency graph shifted, rustc updated). Two
/// fingerprints for the same crate are "same unit" when their records name
/// identical `target` and `profile` hashes. Of a workspace member's unit only
/// the newest is kept. Of a dependency's unit none is: its time of invocation
/// does not tell which one is good, as cargo touches it on fingerprint checks,
/// and the ThinLTO partitions in any survivor may be incompatible.
///
/// If any dependency was deduped, workspace members that were compiled against
/// the old one are zombies, and are taken out with their incremental caches.
///
/// Returns the caches that go.
pub fn dedup_stale_units(
    dirs: &Vec<FingerprintDir>,
    caches: &Vec<CacheDir>,
    inv: &mut Inventory,
    live: &LiveSet,
) -> (r: Vec<usize>)
    ensures
        final(inv)@ == without_superseded(dirs@, live@, old(inv)@),
        r@ == purged_caches(dirs@, caches@, live@, old(inv)@),
{
    let table = candidates(dirs, &inv.live_hashes);
    let ghost start = inv@;
    let ghost demoted = |i: int| is_demoted(dirs@, live@, start.live, i);
    let mut dep_deduped = false;
    proof {
        inventory::lemma_hashes_step(dirs@, 0, demoted);
        assert(start.live.difference(Set::empty()) =~= start.live);
        assert(start.stale + order::picks(0, demoted) =~= start.stale);
    }
    let mut i: usize = 0;
    while i < dirs.len()
        invariant
            i <= dirs.len(),
            table@.len() == dirs@.len(),
            demoted == (|i: int| is_demoted(dirs@, live@, start.live, i)),
            forall|k: int|
                0 <= k < dirs@.len() ==> describes(#[trigger] table@[k], dirs@[k], start.live),
            inv@.live == start.live.difference(inventory::hashes_where(dirs@, i as int, demoted)),
            inv@.stale == start.stale + order::picks(i as nat, demoted),
            dep_deduped <==> exists|k: int|
                0 <= k < i && #[trigger] is_demoted(dirs@, live@, start.live, k)
                    && !live@.members.contains(dirs@[k].crate_name()),
        decreases dirs.len() - i,
    {
        proof {
            inventory::lemma_hashes_step(dirs@, i as int, demoted);
            assert(describes(table@[i as int], dirs@[i as int], start.live));
        }
        if let Some(c) = &table[i] {
            if displaced(dirs, &table, live, Ghost(start.live), i, c) {
                if !live.is_workspace_member(c.crate_name.as_str()) {
                    dep_deduped = true;
                }
                inv.live_hashes.remove(c.hash.as_str());
                inv.stale_fingerprints.push(i);
                assert(demoted(i as int));
                assert(inv@.live =~= start.live.difference(
                    inventory::hashes_where(dirs@, i + 1, demoted),
                ));
                assert(inv@.stale =~= start.stale + order::picks((i + 1) as nat, demoted));
            }
        }
        i = i + 1;
    }
    if dep_deduped {
        purge_workspace_zombies(dirs, caches, inv, live)
    } else {
        Vec::new()
    }
}

/// Takes all workspace member fingerprints out of the inventory, and returns
/// their incremental caches, if there were any. Without the removal of the
/// caches, cargo does an incremental recompile reusing poisoned codegen units.
fn purge_workspace_zombies(
    dirs: &Vec<FingerprintDir>,
    caches: &Vec<CacheDir>,
    inv: &mut Inventory,
    live: &LiveSet,
) -> (r: Vec<usize>)
    ensures
        final(inv)@ == without_zombies(dirs@, live@, old(inv)@),
        r@ == (if any_zombie(dirs@, live@, old(inv)@.live) {
            order::picks(caches@.len(), |i: int| is_member_cache(caches@[i], live@))
        } else {
            Seq::empty()
        }),
{
    let ghost start = inv@;
    let ghost zombie = |i: int| is_zombie(dirs@, live@, start.live, i);
    proof {
        inventory::lemma_hashes_step(dirs@, 0, zombie);
        assert(start.live.difference(Set::empty()) =~= start.live);
        assert(start.stale + order::picks(0, zombie) =~= start.stale);
    }
    let mut found = false;
    let mut i: usize = 0;
    while i < dirs.len()
        invariant
            i <= dirs.len(),
            zombie == (|i: int| is_zombie(dirs@, live@, start.live, i)),
            inv@.live == start.live.difference(inventory::hashes_where(dirs@, i as int, zombie)),
            inv@.stale == start.stale + order::picks(i as nat, zombie),
            found <==> exists|k: int|
                0 <= k < i && #[trigger] is_zombie(dirs@, live@, start.live, k),
        decreases dirs.len() - i,
    {
        proof {
            inventory::lemma_hashes_step(dirs@, i as int, zombie);
            lemma_zombies_hold(dirs@, live@, start.live, i as int);
        }
        if let Some((crate_name, hash)) = dirs[i].unit_name() {
            if live.is_workspace_member(crate_name) && inv.live_hashes.contains(hash) {
                found = true;
                inv.live_hashes.remove(hash);
                inv.stale_fingerprints.push(i);
                assert(zombie(i as int));
                assert(inv@.live =~= start.live.difference(
                    inventory::hashes_where(dirs@, i + 1, zombie),
                ));
                assert(inv@.stale =~= start.stale + order::picks((i + 1) as nat, zombie));
            }
        }
        i = i + 1;
    }
    let mut purged: Vec<usize> = Vec::new();
    if !found {
        return purged;
    }
    let prefixes = live.workspace_member_prefixes();
    let ghost cached = |i: int| is_member_cache(caches@[i], live@);
    let mut k: usize = 0;
    while k < caches.len()
        invariant
            k <= caches.len(),
            cached == (|i: int| is_member_cache(caches@[i], live@)),
            prefixes@ == live@.members,
            purged@ == order::picks(k as nat, cached),
        decreases caches.len() - k,
    {
        if let Some(prefix) = caches[k].crate_name() {
            if prefixes.contains_either(prefix.as_str()) {
                purged.push(k);
            }
        }
        k = k + 1;
    }
    purged
}

/// Up to an entry, the hashes of zombies are those of workspace members in use.
proof fn lemma_zombies_hold(
    dirs: Seq<FingerprintDir>,
    live: LiveNames,
    hashes: Set<Seq<char>>,
    i: int,
)
    requires
        0 <= i < dirs.len(),
    ensures
        is_member_unit(dirs[i], live) ==> (is_zombie(dirs, live, hashes, i) <==> hashes.difference(
            inventory::hashes_where(dirs, i, |k: int| is_zombie(dirs, live, hashes, k)),
        ).contains(dirs[i].hash())),
{
    let zombie = |k: int| is_zombie(dirs, live, hashes, k);
    let gone = inventory::hashes_where(dirs, i, zombie);
    let h = dirs[i].hash();
    if is_member_unit(dirs[i], live) && hashes.contains(h) {
        if gone.contains(h) {
            let k = choose|k: int| 0 <= k < i && #[trigger] zombie(k) && h == dirs[k].hash();
            assert(is_member_unit(dirs[k], live));
        } else if !is_zombie(dirs, live, hashes, i) {
            let j = choose|j: int|
                0 <= j < i && #[trigger] is_member_unit(dirs[j], live) && dirs[j].hash() == h;
            let first = lemma_first_member(dirs, live, h, j);
            assert(is_zombie(dirs, live, hashes, first));
            assert(zombie(first));
        }
    }
}

/// The first unit of a workspace member with the hash `h`.
pub proof fn lemma_first_member(
    dirs: Seq<FingerprintDir>,
    live: LiveNames,
    h: Seq<char>,
    j: int,
) -> (first: int)
    requires
        0 <= j < dirs.len(),
        is_member_unit(dirs[j], live),
        dirs[j].hash() == h,
    ensures
        0 <= first <= j,
        is_member_unit(dirs[first], live),
        dirs[first].hash() == h,
        forall|k: int| 0 <= k < first && #[trigger] is_member_unit(dirs[k], live) ==> dirs[k].hash()
            != h,
    decreases j,
{
    if exists|k: int| 0 <= k < j && #[trigger] is_member_unit(dirs[k], live) && dirs[k].hash() == h {
        let k = choose|k: int|
            0 <= k < j && #[trigger] is_member_unit(dirs[k], live) && dirs[k].hash() == h;
        lemma_first_member(dirs, live, h, k)
    } else {
        j
    }
}

/// The names that `targets` stand for, as written and in snake_case.
pub open spec fn prune_names(targets: Seq<String>) -> Set<Seq<char>> {
    Set::new(
        |name: Seq<char>|
            exists|i: int|
                0 <= i < targets.len() && (name == #[trigger] targets[i]@ || name
                    == inventory::snake(targets[i]@)),
    )
}

/// The names that `targets` stand for, as written and in snake_case.
pub fn prune_set(targets: &Vec<String>) -> (r: NameSet)
    ensures
        r@ == prune_names(targets@),
{
    let mut out = NameSet::new();
    let mut i: usize = 0;
    while i < targets.len()
        invariant
            i <= targets.len(),
            forall|name: Seq<char>| #[trigger]
                out@.contains(name) <==> exists|k: int|
                    0 <= k < i && (name == #[trigger] targets@[k]@ || name == inventory::snake(
                        targets@[k]@,
                    )),
        decreases targets.len() - i,
    {
        out.insert(targets[i].clone());
        out.insert(to_snake(targets[i].as_str()));
        i = i + 1;
    }
    assert(out@ =~= prune_names(targets@));
    out
}

/// Whether `name` is one of the names `prunes`, as written or in snake_case.
pub open spec fn is_prune_name(name: Seq<char>, prunes: Set<Seq<char>>) -> bool {
    prunes.contains(name) || prunes.contains(inventory::snake(name))
}

/// Whether `name` is one of the names `prunes`, as written or in snake_case.
pub fn prunes_name(name: &str, prunes: &NameSet) -> (r: bool)
    ensures
        r == is_prune_name(name@, prunes@),
{
    prunes.contains(name) || prunes.contains(to_snake(name).as_str())
}

/// Whether an entry of `.fingerprint/` is a unit of a crate with one of the
/// names `prunes`, as written or in snake_case.
pub open spec fn is_pruned(d: FingerprintDir, prunes: Set<Seq<char>>) -> bool {
    d.unit() is Some && is_prune_name(d.crate_name(), prunes)
}

/// Whether `h` is the hash of a unit of a pruned target.
pub open spec fn is_pruned_hash(
    dirs: Seq<FingerprintDir>,
    prunes: Set<Seq<char>>,
    h: Seq<char>,
) -> bool {
    exists|i: int|
        0 <= i < dirs.len() && #[trigger] is_pruned(dirs[i], prunes) && dirs[i].hash() == h
}

/// Whether pruning puts the entry `i` on the list of what goes: it does if the
/// entry was in use, or is not on the list yet.
pub open spec fn is_promoted(
    dirs: Seq<FingerprintDir>,
    prunes: Set<Seq<char>>,
    stock: Stock,
    i: int,
) -> bool {
    is_pruned(dirs[i], prunes) && ({
        ||| !stock.stale.contains(i as usize)
        ||| stock.live.contains(dirs[i].hash()) && forall|j: int|
            0 <= j < i && #[trigger] is_pruned(dirs[j], prunes) ==> dirs[j].hash()
                != dirs[i].hash()
    })
}

/// The inventory once the units of pruned targets are taken out.
pub open spec fn without_pruned(
    dirs: Seq<FingerprintDir>,
    prunes: Set<Seq<char>>,
    stock: Stock,
) -> Stock {
    Stock {
        live: stock.live.difference(
            inventory::hashes_where(
                dirs,
                dirs.len() as int,
                |i: int| is_pruned(dirs[i], prunes),
            ),
        ),
        stale: stock.stale + order::picks(
            dirs.len(),
            |i: int| is_promoted(dirs, prunes, stock, i),
        ),
    }
}

/// Demotes the fingerprint dirs of pruned targets to the stale list. We accept
/// either the hyphen or snake_case form of the user-supplied name to spare them
/// having to guess which one cargo used internally.
pub fn promote_pruned_targets_to_stale(
    dirs: &Vec<FingerprintDir>,
    inv: &mut Inventory,
    prune_targets: &Vec<String>,
)
    ensures
        final(inv)@ == without_pruned(dirs@, prune_names(prune_targets@), old(inv)@),
{
    let prunes = prune_set(prune_targets);
    let ghost start = inv@;
    let ghost pruned = |i: int| is_pruned(dirs@[i], prunes@);
    let ghost promoted = |i: int| is_promoted(dirs@, prunes@, start, i);
    proof {
        inventory::lemma_hashes_step(dirs@, 0, pruned);
        assert(start.live.difference(Set::empty()) =~= start.live);
        assert(start.stale + order::picks(0, promoted) =~= start.stale);
    }
    let mut i: usize = 0;
    while i < dirs.len()
        invariant
            i <= dirs.len(),
            prunes@ == prune_names(prune_targets@),
            pruned == (|i: int| is_pruned(dirs@[i], prunes@)),
            promoted == (|i: int| is_promoted(dirs@, prunes@, start, i)),
            inv@.live == start.live.difference(inventory::hashes_where(dirs@, i as int, pruned)),
            inv@.stale == start.stale + order::picks(i as nat, promoted),
        decreases dirs.len() - i,
    {
        proof {
            inventory::lemma_hashes_step(dirs@, i as int, pruned);
            order::lemma_picks(i as nat, promoted);
            assert forall|x: usize| (start.stale + order::picks(i as nat, promoted)).contains(x) <==>
                start.stale.contains(x) || order::picks(i as nat, promoted).contains(x) by {
                order::lemma_concat_contains(start.stale, order::picks(i as nat, promoted), x);
            }
        }
        if let Some((crate_name, hash)) = dirs[i].unit_name() {
            if prunes_name(crate_name, &prunes) {
                assert(pruned(i as int));
                let was_listed = order::holds(&inv.stale_fingerprints, i);
                let was_live = inv.live_hashes.remove(hash);
                proof {
                    let gone = inventory::hashes_where(dirs@, i as int, pruned);
                    if gone.contains(dirs@[i as int].hash()) {
                        let k = choose|k: int|
                            0 <= k < i && #[trigger] pruned(k) && dirs@[i as int].hash()
                                == dirs@[k].hash();
                        assert(is_pruned(dirs@[k], prunes@));
                    } else {
                        assert forall|j: int| 0 <= j < i && #[trigger] is_pruned(dirs@[j], prunes@)
                            implies dirs@[j].hash() != dirs@[i as int].hash() by {
                            assert(pruned(j));
                        }
                    }
                }
                if was_live || !was_listed {
                    inv.stale_fingerprints.push(i);
                    assert(promoted(i as int));
                }
                assert(inv@.live =~= start.live.difference(
                    inventory::hashes_where(dirs@, i + 1, pruned),
                ));
                assert(inv@.stale =~= start.stale + order::picks((i + 1) as nat, promoted));
            }
        }
        i = i + 1;
    }
}

/// Something to tell of the dedup of fingerprints. The numbers are places in
/// `.fingerprint/`, but for the counts.
#[derive(Debug, Clone, Copy, PartialEq, Eq, Structural)]
pub enum Note {
    /// Of the unit of `entry`, a workspace member's, `demoted` dirs go.
    KeptNewest { entry: usize, demoted: usize },
    /// Of the unit of `entry`, a dependency's, all `count` dirs go.
    RemovedAll { entry: usize, count: usize },
    /// The entry was compiled against a superseded dependency.
    Zombie(usize),
}

/// The entries that belong to the unit of the entry `i`.
pub open spec fn companions(dirs: Seq<FingerprintDir>, hashes: Set<Seq<char>>, i: int) -> Seq<usize> {
    order::picks(
        dirs.len(),
        |j: int| is_candidate(dirs[j], hashes) && same_unit(dirs[i], dirs[j]),
    )
}

/// What there is to tell of the unit of the entry `i`, which is told of its first
/// entry.
pub open spec fn unit_note(
    dirs: Seq<FingerprintDir>,
    live: LiveNames,
    hashes: Set<Seq<char>>,
    i: int,
) -> Option<Note> {
    let unit = companions(dirs, hashes, i);
    if !is_candidate(dirs[i], hashes) || unit.len() <= 1 || unit[0] != i {
        None
    } else if live.members.contains(dirs[i].crate_name()) {
        Some(Note::KeptNewest { entry: i as usize, demoted: (unit.len() - 1) as usize })
    } else {
        Some(Note::RemovedAll { entry: i as usize, count: unit.len() as usize })
    }
}

/// What there is to tell of the units of the first `n` entries.
pub open spec fn unit_notes(
    dirs: Seq<FingerprintDir>,
    live: LiveNames,
    hashes: Set<Seq<char>>,
    n: nat,
) -> Seq<Note>
    decreases n,
{
    if n == 0 {
        Seq::empty()
    } else {
        let before = unit_notes(dirs, live, hashes, (n - 1) as nat);
        match unit_note(dirs, live, hashes, n - 1) {
            Some(note) => before.push(note),
            None => before,
        }
    }
}

/// What there is to tell of the dedup of an inventory.
pub open spec fn dedup_notes(dirs: Seq<FingerprintDir>, live: LiveNames, stock: Stock) -> Seq<Note> {
    let rest = without_demoted(dirs, live, stock);
    unit_notes(dirs, live, stock.live, dirs.len()) + (if dependency_demoted(dirs, live, stock.live) {
        order::picks(dirs.len(), |i: int| is_zombie(dirs, live, rest.live, i)).map_values(
            |i: usize| Note::Zombie(i),
        )
    } else {
        Seq::empty()
    })
}

/// The entries that belong to the unit of the candidate `c`, which is the entry `i`.
fn unit_of(
    dirs: &Vec<FingerprintDir>,
    table: &Vec<Option<Candidate>>,
    hashes: Ghost<Set<Seq<char>>>,
    i: usize,
    c: &Candidate,
) -> (r: Vec<usize>)
    requires
        i < dirs.len(),
        table@.len() == dirs@.len(),
        forall|k: int| 0 <= k < dirs@.len() ==> describes(#[trigger] table@[k], dirs@[k], hashes@),
        table@[i as int] == Some(*c),
    ensures
        r@ == companions(dirs@, hashes@, i as int),
{
    let ghost with_c = |j: int|
        is_candidate(dirs@[j], hashes@) && same_unit(dirs@[i as int], dirs@[j]);
    assert(describes(table@[i as int], dirs@[i as int], hashes@));
    let mut out: Vec<usize> = Vec::new();
    let mut j: usize = 0;
    while j < table.len()
        invariant
            j <= table.len(),
            table@.len() == dirs@.len(),
            forall|k: int|
                0 <= k < dirs@.len() ==> describes(#[trigger] table@[k], dirs@[k], hashes@),
            describes(Some(*c), dirs@[i as int], hashes@),
            with_c == (|j: int|
                is_candidate(dirs@[j], hashes@) && same_unit(dirs@[i as int], dirs@[j])),
            out@ == order::picks(j as nat, with_c),
        decreases table.len() - j,
    {
        assert(describes(table@[j as int], dirs@[j as int], hashes@));
        if let Some(other) = &table[j] {
            if other.key.0 == c.key.0 && other.key.1 == c.key.1 && other.crate_name
                == c.crate_name {
                out.push(j);
            }
        }
        j = j + 1;
    }
    out
}

/// What there is to tell of the dedup of an inventory.
pub fn explain_dedup(dirs: &Vec<FingerprintDir>, inv: Inventory, live: &LiveSet) -> (r: Vec<Note>)
    ensures
        r@ == dedup_notes(dirs@, live@, inv@),
{
    let ghost start = inv@;
    let ghost demoted = |i: int| is_demoted(dirs@, live@, start.live, i);
    let ghost zombie = |i: int|
        is_zombie(dirs@, live@, without_demoted(dirs@, live@, start).live, i);
    let ghost tell = |i: usize| Note::Zombie(i);
    let listed: usize = inv.stale_fingerprints.len();
    let table = candidates(dirs, &inv.live_hashes);
    let mut out: Vec<Note> = Vec::new();
    let mut gone: usize = 0;
    let mut i: usize = 0;
    while i < dirs.len()
        invariant
            i <= dirs.len(),
            table@.len() == dirs@.len(),
            demoted == (|i: int| is_demoted(dirs@, live@, start.live, i)),
            forall|k: int|
                0 <= k < dirs@.len() ==> describes(#[trigger] table@[k], dirs@[k], start.live),
            gone <= i,
            gone == order::picks(i as nat, demoted).len(),
            out@ == unit_notes(dirs@, live@, start.live, i as nat),
        decreases dirs.len() - i,
    {
        assert(describes(table@[i as int], dirs@[i as int], start.live));
        if let Some(c) = &table[i] {
            if displaced(dirs, &table, live, Ghost(start.live), i, c) {
                gone = gone + 1;
                assert(demoted(i as int));
            }
            let unit = unit_of(dirs, &table, Ghost(start.live), i, c);
            if unit.len() > 1 && unit[0] == i {
                if live.is_workspace_member(c.crate_name.as_str()) {
                    out.push(Note::KeptNewest { entry: i, demoted: unit.len() - 1 });
                } else {
                    out.push(Note::RemovedAll { entry: i, count: unit.len() });
                }
            }
        }
        i = i + 1;
    }
    let mut inv = inv;
    dedup_stale_units(dirs, &Vec::new(), &mut inv, live);
    let ghost told = out@;
    let ghost zombies = if dependency_demoted(dirs@, live@, start.live) {
        order::picks(dirs@.len(), zombie)
    } else {
        Seq::empty()
    };
    proof {
        order::lemma_picks(dirs@.len(), demoted);
        assert(inv@.stale =~= start.stale + order::picks(dirs@.len(), demoted) + zombies);
        assert(zombies =~= inv@.stale.skip(listed + gone));
        assert(told + zombies.take(0).map_values(tell) =~= told);
    }
    let end: usize = inv.stale_fingerprints.len();
    let mut k: usize = listed + gone;
    while k < end
        invariant
            listed + gone <= k <= end,
            end == inv.stale_fingerprints.len(),
            tell == (|i: usize| Note::Zombie(i)),
            zombies == inv@.stale.skip(listed + gone),
            out@ == told + zombies.take(k - (listed + gone)).map_values(tell),
        decreases end - k,
    {
        let entry = inv.stale_fingerprints[k];
        out.push(Note::Zombie(entry));
        proof {
            let n = k - (listed + gone);
            assert(zombies[n] == entry);
            assert(out@ =~= told + zombies.take(n + 1).map_values(tell));
        }
        k = k + 1;
    }
    assert(zombies.take(zombies.len() as int) =~= zombies);
    out
}

} // verus!
