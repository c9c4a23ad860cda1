//! What holds of the names that cargo gives to files, and of live sets.

use vstd::prelude::*;

use crate::inventory::{self, FingerprintDir};
use crate::listing::CacheDir;
use crate::live_set::{self, ListedTarget, LiveNames, Metadata};
use crate::order;
use crate::plain;
use crate::sweep;
use crate::text;

verus! {

broadcast use vstd::seq::group_seq_axioms;

/// A name made of a crate name and a hash reads back as these.
pub proof fn unit_name_reads_back(name: Seq<char>, hash: Seq<char>)
    requires
        name.len() > 0,
        inventory::is_hash(hash),
    ensures
        inventory::unit_parts(name + seq!['-'] + hash) == Some((name, hash)),
{
    let s = name + seq!['-'] + hash;
    let dash = name.len() as int;
    assert forall|j: int| dash < j < s.len() implies s[j] != '-' by {
        assert(s[j] == hash[j - dash - 1]);
        assert(inventory::is_lower_hex(hash[j - dash - 1]));
    }
    text::lemma_last_position_is(s, '-', dash);
    assert(s.take(dash) =~= name);
    assert(s.skip(dash + 1) =~= hash);
}

/// What reads as a unit name is made of its crate name and its hash.
pub proof fn unit_name_is_its_parts(s: Seq<char>)
    ensures
        inventory::unit_parts(s) matches Some((name, hash)) ==> name.len() > 0
            && inventory::is_hash(hash) && s == name + seq!['-'] + hash,
{
    text::lemma_last_position(s, '-');
    if inventory::unit_parts(s) is Some {
        let dash = text::last_position(s, '-')->0;
        assert(s =~= s.take(dash) + seq!['-'] + s.skip(dash + 1));
    }
}

/// A hash has no dot in it, and no dash.
proof fn lemma_hash_letters(hash: Seq<char>, i: int)
    requires
        inventory::is_hash(hash),
        0 <= i < hash.len(),
    ensures
        hash[i] != '.',
        hash[i] != '-',
{
    assert(inventory::is_lower_hex(hash[i]));
}

/// A file of `deps/` that is named for a unit carries its hash, whatever its
/// extension.
pub proof fn artifact_carries_the_hash_of_its_unit(
    name: Seq<char>,
    hash: Seq<char>,
    extension: Seq<char>,
)
    requires
        inventory::is_hash(hash),
        !extension.contains('.'),
    ensures
        inventory::deps_hash(name + seq!['-'] + hash + seq!['.'] + extension) == Some(hash),
        !name.contains('.') ==> inventory::deps_hash(name + seq!['-'] + hash) == Some(hash),
{
    let root = name + seq!['-'] + hash;
    let file = root + seq!['.'] + extension;
    let dot = root.len() as int;
    assert forall|j: int| dot < j < file.len() implies file[j] != '.' by {
        assert(file[j] == extension[j - dot - 1]);
        assert(extension.contains(extension[j - dot - 1]));
    }
    text::lemma_last_position_is(file, '.', dot);
    assert(file.take(dot) =~= root);
    let dash = name.len() as int;
    assert forall|j: int| dash < j < root.len() implies root[j] != '-' by {
        assert(root[j] == hash[j - dash - 1]);
        lemma_hash_letters(hash, j - dash - 1);
    }
    text::lemma_last_position_is(root, '-', dash);
    assert(root.skip(dash + 1) =~= hash);
    if !name.contains('.') {
        text::lemma_last_position(root, '.');
        if text::last_position(root, '.') is Some {
            let i = text::last_position(root, '.')->0;
            if i < dash {
                assert(name[i] == '.');
                assert(name.contains(name[i]));
            } else if i > dash {
                lemma_hash_letters(hash, i - dash - 1);
            }
        }
    }
}

/// The snake_case form of a name is its own snake_case form: it has no `-`.
pub proof fn snake_case_is_final(s: Seq<char>)
    ensures
        inventory::snake(inventory::snake(s)) == inventory::snake(s),
        inventory::snake(s).len() == s.len(),
        !inventory::snake(s).contains('-'),
{
    let t = inventory::snake(s);
    assert(inventory::snake(t) =~= t);
    assert forall|i: int| 0 <= i < t.len() implies t[i] != '-' by {}
}

/// What is live as written is live in snake_case.
pub proof fn live_names_are_live_in_snake_case(live: LiveNames, name: Seq<char>)
    requires
        live.crates.contains(name),
    ensures
        live.matches(name),
        live_set::snake_all(live.crates).contains(inventory::snake(name)),
        live.matches(inventory::snake(name)),
{
}

/// The whole workspace is live, and so are every package and build scripts.
pub proof fn workspace_is_live(m: Metadata, k: int)
    ensures
        live_set::member_names(m).subset_of(live_set::crate_names(m)),
        0 <= k < m.packages@.len() ==> live_set::crate_names(m).contains(m.packages@[k].name@),
        live_set::crate_names(m).contains(live_set::build_script_name()),
{
    assert forall|name: Seq<char>| live_set::member_names(m).contains(name)
        implies live_set::crate_names(m).contains(name) by {
        let k = choose|k: int| #[trigger]
            live_set::is_member_package(m, k) && (name == m.packages@[k].name@
                || live_set::is_target_name(m.packages@[k], name));
        let j = choose|j: int|
            0 <= j < m.workspace_members@.len() && live_set::find_package(
                m.packages@,
                #[trigger] m.workspace_members@[j]@,
            ) == Some(k);
        live_set::lemma_find_package(m.packages@, m.workspace_members@[j]@);
    }
}

/// The list of targets has every target, by kind and among those of one kind by
/// name.
pub proof fn targets_are_listed_in_order(targets: Seq<ListedTarget>, t: ListedTarget)
    requires
        targets.len() <= usize::MAX,
    ensures
        ({
            let list = live_set::listed_in_order(targets);
            &&& list.len() == targets.len()
            &&& list.contains(t) <==> targets.contains(t)
            &&& forall|a: int, b: int|
                0 <= a < b < list.len() ==> if (#[trigger] list[a]).kind == (
                #[trigger] list[b]).kind {
                    text::text_le(list[a].name, list[b].name)
                } else {
                    text::text_le(list[a].kind, list[b].kind)
                }
        }),
{
    let every = |i: int| true;
    let le = |a: usize, b: usize| live_set::listed_no_later(targets, a, b);
    let places = order::picks(targets.len(), every);
    let sorted = places.sort_by(le);
    let list = live_set::listed_in_order(targets);
    order::lemma_picks(targets.len(), every);
    live_set::lemma_total(targets);
    order::lemma_sorted(places, le);
    lemma_all_picked(targets.len(), every);
    assert forall|i: usize| #[trigger] sorted.contains(i) <==> i < targets.len() by {
        assert(places.contains(i) <==> i < targets.len() && every(i as int));
    }
    if list.contains(t) {
        let k = choose|k: int| 0 <= k < list.len() && list[k] == t;
        assert(sorted.contains(sorted[k]));
        assert(targets[sorted[k] as int] == t);
    }
    if targets.contains(t) {
        let i = choose|i: int| 0 <= i < targets.len() && targets[i] == t;
        assert(sorted.contains(i as usize));
        let k = choose|k: int| 0 <= k < sorted.len() && sorted[k] == i as usize;
        assert(list[k] == t);
    }
    assert forall|a: int, b: int| 0 <= a < b < list.len() implies if (#[trigger] list[a]).kind == (
    #[trigger] list[b]).kind {
        text::text_le(list[a].name, list[b].name)
    } else {
        text::text_le(list[a].kind, list[b].kind)
    } by {
        assert(le(sorted[a], sorted[b]));
        text::text_order(list[a].name, list[a].name, list[a].name);
    }
}

/// Picking everything gives every index.
proof fn lemma_all_picked(n: nat, every: spec_fn(int) -> bool)
    requires
        forall|i: int| #[trigger] every(i),
    ensures
        order::picks(n, every).len() == n,
    decreases n,
{
    if n > 0 {
        lemma_all_picked((n - 1) as nat, every);
        assert(every(n - 1));
    }
}

/// Leaving out repeats leaves every target, and no two equal ones side by side.
pub proof fn repeats_are_left_out(targets: Seq<ListedTarget>, t: ListedTarget)
    ensures
        live_set::without_repeats(targets).contains(t) <==> targets.contains(t),
        forall|i: int|
            0 < i < live_set::without_repeats(targets).len() ==> #[trigger] live_set::without_repeats(
                targets,
            )[i] != live_set::without_repeats(targets)[i - 1],
        targets.len() > 0 ==> live_set::without_repeats(targets).len() > 0
            && live_set::without_repeats(targets).last() == targets.last(),
    decreases targets.len(),
{
    if targets.len() > 0 {
        let init = targets.drop_last();
        let last = targets.last();
        let before = live_set::without_repeats(init);
        let list = live_set::without_repeats(targets);
        repeats_are_left_out(init, t);
        assert(targets =~= init + seq![last]);
        order::lemma_concat_contains(init, seq![last], t);
        assert(seq![last].contains(t) <==> t == last) by {
            assert(seq![last][0] == last);
        }
        if targets.len() > 1 && last == targets[targets.len() - 2] {
            assert(init.last() == last);
            assert(init.contains(init[init.len() - 1]));
        } else {
            assert(list =~= before + seq![last]);
            order::lemma_concat_contains(before, seq![last], t);
            if init.len() > 0 {
                assert(before.last() == init.last());
            }
        }
    }
}

/// **A unit is told by its name.** What reads as a crate and a hash is the crate, a
/// dash, and sixteen hexadecimal digits, and whatever is so made up reads so.
pub proof fn unit_is_told_by_its_name(s: Seq<char>, c: Seq<char>, h: Seq<char>)
    ensures
        inventory::unit_parts(s) == Some((c, h)) <==> c.len() > 0 && plain::is_hex16(h) && s
            == plain::dashed(c, h),
        inventory::unit_parts(s) is None <==> forall|a: Seq<char>, b: Seq<char>|
            s == #[trigger] plain::dashed(a, b) ==> a.len() == 0 || !plain::is_hex16(b),
{
    lemma_hash(h);
    unit_name_is_its_parts(s);
    if c.len() > 0 && plain::is_hex16(h) && s == plain::dashed(c, h) {
        unit_name_reads_back(c, h);
    }
    match inventory::unit_parts(s) {
        Some((a, b)) => {
            lemma_hash(b);
            assert(s == plain::dashed(a, b));
        },
        None => {
            assert forall|a: Seq<char>, b: Seq<char>|
                s == #[trigger] plain::dashed(a, b) implies a.len() == 0 || !plain::is_hex16(b) by {
                lemma_hash(b);
                if a.len() > 0 && plain::is_hex16(b) {
                    unit_name_reads_back(a, b);
                }
            }
        },
    }
}

/// A hash is made of sixteen hexadecimal digits.
proof fn lemma_hash(h: Seq<char>)
    ensures
        inventory::is_hash(h) == plain::is_hex16(h),
{
    if inventory::is_hash(h) {
        assert forall|i: int| 0 <= i < 16 implies 48 <= (#[trigger] h[i]) as int <= 57 || 97
            <= h[i] as int <= 102 by {
            assert(inventory::is_lower_hex(h[i]));
        }
    }
    if plain::is_hex16(h) {
        assert forall|i: int| 0 <= i < 16 implies inventory::is_lower_hex(#[trigger] h[i]) by {}
    }
}

/// **A fingerprint dir is told by its name.**
pub proof fn fingerprint_dir_is_told_by_its_name(d: FingerprintDir, c: Seq<char>, h: Seq<char>)
    ensures
        d.unit() == Some((c, h)) <==> plain::is_unit_of(d, c, h),
        plain::is_unit_of(d, c, h) ==> d.crate_name() == c && d.hash() == h,
        d.unit() is Some ==> plain::is_unit_of(d, d.crate_name(), d.hash()),
        d.is_listed() <==> d.is_unicode && plain::is_unit_of(d, d.crate_name(), d.hash()),
{
    unit_is_told_by_its_name(d.name@, c, h);
    unit_is_told_by_its_name(d.name@, d.crate_name(), d.hash());
}

/// **An extension is what stands behind the last dot.**
pub proof fn extension_stands_behind_the_last_dot(s: Seq<char>, f: Seq<char>)
    ensures
        inventory::stem(f) == s <==> plain::is_stem_of(s, f),
{
    text::lemma_last_position(f, '.');
    match text::last_position(f, '.') {
        Some(dot) => {
            let ext = f.skip(dot + 1);
            assert(f =~= f.take(dot) + seq!['.'] + ext);
            assert(!ext.contains('.'));
            assert(f.contains(f[dot]));
            if plain::is_stem_of(s, f) {
                let e = choose|e: Seq<char>| #[trigger] (s + seq!['.'] + e) == f && !e.contains('.');
                let at = s.len() as int;
                assert(f[at] == '.');
                assert forall|j: int| at < j < f.len() implies f[j] != '.' by {
                    assert(f[j] == e[j - at - 1]);
                    assert(e.contains(e[j - at - 1]));
                }
                text::lemma_last_position_is(f, '.', at);
                assert(f.take(at) =~= s);
            }
        },
        None => {
            if plain::is_stem_of(s, f) && f != s {
                let e = choose|e: Seq<char>| #[trigger] (s + seq!['.'] + e) == f && !e.contains('.');
                assert(f[s.len() as int] == '.');
                assert(f.contains(f[s.len() as int]));
            }
        },
    }
}

/// **A file of `deps/` carries a hash behind its last dash**, before an extension.
pub proof fn hash_stands_behind_the_last_dash(f: Seq<char>, h: Seq<char>)
    ensures
        inventory::deps_hash(f) == Some(h) <==> plain::is_hex16(h) && exists|root: Seq<char>|
            plain::is_stem_of(#[trigger] plain::dashed(root, h), f),
{
    let s = inventory::stem(f);
    lemma_hash(h);
    text::lemma_last_position(s, '-');
    if inventory::deps_hash(f) == Some(h) {
        let dash = text::last_position(s, '-')->0;
        let root = s.take(dash);
        assert(s =~= plain::dashed(root, h));
        extension_stands_behind_the_last_dot(s, f);
        assert(plain::is_stem_of(plain::dashed(root, h), f));
    }
    if plain::is_hex16(h) && exists|root: Seq<char>|
        plain::is_stem_of(#[trigger] plain::dashed(root, h), f) {
        let root = choose|root: Seq<char>|
            plain::is_stem_of(#[trigger] plain::dashed(root, h), f);
        let t = plain::dashed(root, h);
        extension_stands_behind_the_last_dot(t, f);
        let dash = root.len() as int;
        assert forall|j: int| dash < j < t.len() implies t[j] != '-' by {
            assert(t[j] == h[j - dash - 1]);
        }
        text::lemma_last_position_is(t, '-', dash);
        assert(t.skip(dash + 1) =~= h);
    }
}

/// **A cache belongs to the crate before its last dash.**
pub proof fn cache_belongs_to_the_crate_before_its_last_dash(cache: CacheDir, c: Seq<char>)
    ensures
        cache.cached_crate() == Some(c) <==> cache.is_dir && exists|tag: Seq<char>|
            cache.name@ == #[trigger] plain::dashed(c, tag) && !tag.contains('-'),
        cache.cached_crate() is None <==> !cache.is_dir || !cache.name@.contains('-'),
{
    let s = cache.name@;
    text::lemma_last_position(s, '-');
    if cache.cached_crate() == Some(c) {
        let dash = text::last_position(s, '-')->0;
        let tag = s.skip(dash + 1);
        assert(s =~= plain::dashed(c, tag));
        assert(!tag.contains('-'));
    }
    if exists|tag: Seq<char>| s == #[trigger] plain::dashed(c, tag) && !tag.contains('-') {
        let tag = choose|tag: Seq<char>| s == #[trigger] plain::dashed(c, tag) && !tag.contains('-');
        let dash = c.len() as int;
        assert forall|j: int| dash < j < s.len() implies s[j] != '-' by {
            assert(s[j] == tag[j - dash - 1]);
            assert(tag.contains(tag[j - dash - 1]));
        }
        text::lemma_last_position_is(s, '-', dash);
        assert(s.take(dash) =~= c);
    }
    if text::last_position(s, '-') is Some {
        assert(s.contains(s[text::last_position(s, '-')->0]));
    }
}

/// **The snake_case form has underscores for dashes, and is else unchanged.** Two
/// names have the same one exactly if they differ in nothing but these.
pub proof fn snake_case_has_underscores_for_dashes(s: Seq<char>, t: Seq<char>)
    ensures
        inventory::snake(s) == t <==> plain::is_underscored(s, t),
        inventory::snake(s) == inventory::snake(t) <==> plain::is_same_but_dashes(s, t),
{
    let a = inventory::snake(s);
    let b = inventory::snake(t);
    assert(plain::is_underscored(s, a));
    if plain::is_underscored(s, t) {
        assert(a =~= t);
    }
    if a == b {
        assert forall|i: int| 0 <= i < s.len() implies #[trigger] s[i] == t[i] || ((s[i] == '-'
            || s[i] == '_') && (t[i] == '-' || t[i] == '_')) by {
            assert(a[i] == b[i]);
        }
        assert(s.len() == a.len() && t.len() == b.len());
    }
    if plain::is_same_but_dashes(s, t) {
        assert forall|i: int| 0 <= i < a.len() implies a[i] == b[i] by {
            assert(s[i] == t[i] || ((s[i] == '-' || s[i] == '_') && (t[i] == '-' || t[i] == '_')));
        }
        assert(a =~= b);
    }
}

/// **A library's file has `lib` before its name.**
pub proof fn library_file_has_lib_before_its_name(s: Seq<char>, rest: Seq<char>)
    ensures
        sweep::behind_lib(s) == Some(rest) <==> s == "lib"@ + rest,
        sweep::behind_lib("lib"@ + rest) == Some(rest),
{
    reveal_strlit("lib");
    let lib = "lib"@;
    if sweep::behind_lib(s) == Some(rest) {
        assert(s =~= lib + rest);
    }
    let t = lib + rest;
    assert(t[0] == 'l' && t[1] == 'i' && t[2] == 'b');
    assert(t.skip(3) =~= rest);
}

/// **What is live is a live name, or one with underscores for its dashes.**
pub proof fn live_is_a_live_name_in_either_form(live: LiveNames, name: Seq<char>)
    ensures
        live_set::snake_all(live.crates).contains(name) <==> exists|c: Seq<char>| #[trigger]
            live.crates.contains(c) && plain::is_underscored(c, name),
        live.matches(name) <==> live.crates.contains(name) || exists|c: Seq<char>| #[trigger]
            live.crates.contains(c) && plain::is_underscored(c, name),
        live.is_member_prefix(name) <==> live.members.contains(name) || exists|c: Seq<char>|
            #[trigger] live.members.contains(c) && plain::is_underscored(c, name),
{
    lemma_snake_all(live.crates, name);
    lemma_snake_all(live.members, name);
}

/// The snake_case forms of a set of names.
proof fn lemma_snake_all(set: Set<Seq<char>>, name: Seq<char>)
    ensures
        live_set::snake_all(set).contains(name) <==> exists|c: Seq<char>| #[trigger]
            set.contains(c) && plain::is_underscored(c, name),
{
    if live_set::snake_all(set).contains(name) {
        let c = choose|c: Seq<char>| set.contains(c) && name == inventory::snake(c);
        snake_case_has_underscores_for_dashes(c, name);
        assert(set.contains(c));
    }
    if exists|c: Seq<char>| #[trigger] set.contains(c) && plain::is_underscored(c, name) {
        let c = choose|c: Seq<char>| #[trigger] set.contains(c) && plain::is_underscored(c, name);
        snake_case_has_underscores_for_dashes(c, name);
        assert(live_set::snake_all(set).contains(inventory::snake(c)));
    }
}

/// Whether `f` is a file of the target `name`: `name` or `lib` and `name`, with a
/// dash and a hash behind it or not, and with an extension or not.
pub open spec fn is_file_of(f: Seq<char>, name: Seq<char>) -> bool {
    exists|s: Seq<char>| #[trigger]
        plain::is_stem_of(s, f) && {
            ||| is_target_stem(s, name)
            ||| is_target_stem(s, "lib"@ + name)
        }
}

/// Whether `s` is `name`, or `name` with a dash and a hash behind it. A text that
/// ends in a dash and a hash is read as the latter.
pub open spec fn is_target_stem(s: Seq<char>, name: Seq<char>) -> bool {
    ||| s == name && forall|a: Seq<char>, b: Seq<char>|
        s == #[trigger] plain::dashed(a, b) ==> a.len() == 0 || !plain::is_hex16(b)
    ||| exists|h: Seq<char>|
        s == #[trigger] plain::dashed(name, h) && name.len() > 0 && plain::is_hex16(h)
}

/// **A file belongs to the target that its name spells.** A file is named for one
/// of `names` exactly if it is a file of it.
pub proof fn file_belongs_to_the_target_it_spells(f: Seq<char>, names: Set<Seq<char>>)
    ensures
        sweep::is_named_among(f, names) <==> exists|name: Seq<char>| #[trigger]
            names.contains(name) && is_file_of(f, name),
{
    let s = inventory::stem(f);
    let root = sweep::artifact_root(f);
    extension_stands_behind_the_last_dot(s, f);
    assert(plain::is_stem_of(s, f));
    lemma_target_stem(s, root);
    if sweep::is_named_among(f, names) {
        if names.contains(root) {
            assert(is_file_of(f, root));
        } else {
            let rest = sweep::behind_lib(root)->0;
            library_file_has_lib_before_its_name(root, rest);
            assert(is_target_stem(s, "lib"@ + rest));
            assert(names.contains(rest) && is_file_of(f, rest));
        }
    }
    if exists|name: Seq<char>| #[trigger] names.contains(name) && is_file_of(f, name) {
        let name = choose|name: Seq<char>| #[trigger] names.contains(name) && is_file_of(f, name);
        let t = choose|t: Seq<char>| #[trigger]
            plain::is_stem_of(t, f) && (is_target_stem(t, name) || is_target_stem(t, "lib"@ + name));
        extension_stands_behind_the_last_dot(t, f);
        lemma_target_stem(s, name);
        lemma_target_stem(s, "lib"@ + name);
        library_file_has_lib_before_its_name(root, name);
    }
}

/// The target that a stem spells.
proof fn lemma_target_stem(s: Seq<char>, name: Seq<char>)
    ensures
        is_target_stem(s, name) <==> name == match inventory::unit_parts(s) {
            Some((root, _)) => root,
            None => s,
        },
{
    match inventory::unit_parts(s) {
        Some((root, hash)) => {
            unit_is_told_by_its_name(s, root, hash);
            if is_target_stem(s, name) {
                assert(s == plain::dashed(root, hash));
                let h = choose|h: Seq<char>|
                    s == #[trigger] plain::dashed(name, h) && name.len() > 0 && plain::is_hex16(h);
                unit_is_told_by_its_name(s, name, h);
            }
        },
        None => {
            unit_is_told_by_its_name(s, s, s);
            if exists|h: Seq<char>|
                s == #[trigger] plain::dashed(name, h) && name.len() > 0 && plain::is_hex16(h) {
                let h = choose|h: Seq<char>|
                    s == #[trigger] plain::dashed(name, h) && name.len() > 0 && plain::is_hex16(h);
                unit_is_told_by_its_name(s, name, h);
            }
        },
    }
}

/// **A file is live by its hash or by its name**: if it carries one of the hashes,
/// or is a file of a live target in either form.
pub proof fn file_is_live_by_hash_or_name(f: Seq<char>, hashes: Set<Seq<char>>, live: LiveNames)
    ensures
        sweep::is_live_file(f, hashes, live) <==> {
            ||| exists|name: Seq<char>| is_file_of(f, name) && #[trigger] live.matches(name)
            ||| exists|c: Seq<char>, h: Seq<char>| #[trigger]
                plain::is_stem_of(plain::dashed(c, h), f) && c.len() > 0 && plain::is_hex16(h)
                    && hashes.contains(h)
        },
{
    let s = inventory::stem(f);
    let root = sweep::artifact_root(f);
    extension_stands_behind_the_last_dot(s, f);
    lemma_target_stem(s, root);
    let all = Set::new(|name: Seq<char>| live.matches(name));
    file_belongs_to_the_target_it_spells(f, all);
    if sweep::is_named_among(f, all) {
        let name = choose|name: Seq<char>| #[trigger] all.contains(name) && is_file_of(f, name);
        assert(live.matches(name));
    }
    if exists|name: Seq<char>| is_file_of(f, name) && #[trigger] live.matches(name) {
        let name = choose|name: Seq<char>| is_file_of(f, name) && #[trigger] live.matches(name);
        assert(all.contains(name));
    }
    assert(sweep::is_named_among(f, all) == sweep::is_live_name(root, live));
    match inventory::unit_parts(s) {
        Some((c, h)) => {
            unit_is_told_by_its_name(s, c, h);
            if hashes.contains(h) {
                assert(plain::is_stem_of(plain::dashed(c, h), f));
            }
        },
        None => {},
    }
    assert forall|c: Seq<char>, h: Seq<char>| #[trigger]
        plain::is_stem_of(plain::dashed(c, h), f) && c.len() > 0 && plain::is_hex16(h)
        implies inventory::unit_parts(s) == Some((c, h)) by {
        extension_stands_behind_the_last_dot(plain::dashed(c, h), f);
        unit_is_told_by_its_name(s, c, h);
    }
}

} // verus!
