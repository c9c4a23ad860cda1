//! What holds of the live set, of where a project builds, and of what the program
//! prints.

use vstd::prelude::*;

use crate::cli;
use crate::inventory::Inventory;
use crate::live_set::{self, ListedTarget, Metadata, Target, WorkspaceTarget};
use crate::order;
use crate::plain;
use crate::plan::{self, Removal};
use crate::report;
use crate::sweep::{self, ProfileDir, ProfileSweep, SweepOptions, SweepReport};
use crate::target_dir::{
    self, ConfigDir, ConfigError, ConfigFile, ConfigName, ConfigPlace, Configured, DirSettings,
    DirWords, ManifestSite, ResolveError, Setting, TargetDir, TargetEntry, Word,
};
use crate::text;
use crate::text_laws;
use crate::version;

verus! {

broadcast use vstd::seq::group_seq_axioms;

/// Whether the package at `k` is the first with the id that stands at `j` in the
/// list of workspace members.
pub open spec fn is_package_of_member(m: Metadata, j: int, k: int) -> bool {
    &&& 0 <= j < m.workspace_members@.len()
    &&& 0 <= k < m.packages@.len()
    &&& m.packages@[k].id@ == m.workspace_members@[j]@
    &&& forall|l: int| 0 <= l < k ==> (#[trigger] m.packages@[l]).id@ != m.workspace_members@[j]@
}

/// A workspace member's package is the first with its id.
proof fn lemma_package_of_member(m: Metadata, j: int, k: int)
    requires
        0 <= j < m.workspace_members@.len(),
    ensures
        live_set::find_package(m.packages@, m.workspace_members@[j]@) == Some(k)
            <==> is_package_of_member(m, j, k),
{
    let id = m.workspace_members@[j]@;
    live_set::lemma_find_package(m.packages@, id);
    if is_package_of_member(m, j, k) {
        match live_set::find_package(m.packages@, id) {
            Some(l) => {
                assert(m.packages@[l].id@ == id && m.packages@[k].id@ == id);
                if l < k {
                    assert(m.packages@[l].id@ != id);
                } else if k < l {
                    assert(m.packages@[k].id@ != id);
                }
            },
            None => {
                assert(m.packages@[k].id@ != id);
            },
        }
    }
}

/// **Every package is live, and every target of a workspace member, of whatever
/// kind.** Build scripts are live too, and nothing else is.
pub proof fn packages_and_member_targets_are_live(m: Metadata, name: Seq<char>)
    ensures
        live_set::crate_names(m).contains(name) <==> {
            ||| exists|k: int| 0 <= k < m.packages@.len() && (#[trigger] m.packages@[k]).name@ == name
            ||| exists|j: int, k: int, t: int|
                #![trigger is_package_of_member(m, j, k), m.packages@[k].targets@[t]]
                is_package_of_member(m, j, k) && 0 <= t < m.packages@[k].targets@.len()
                    && m.packages@[k].targets@[t].name@ == name
            ||| name == "build_script_build"@
        },
        live_set::member_names(m).contains(name) <==> {
            ||| exists|j: int, k: int| #[trigger]
                is_package_of_member(m, j, k) && m.packages@[k].name@ == name
            ||| exists|j: int, k: int, t: int|
                #![trigger is_package_of_member(m, j, k), m.packages@[k].targets@[t]]
                is_package_of_member(m, j, k) && 0 <= t < m.packages@[k].targets@.len()
                    && m.packages@[k].targets@[t].name@ == name
        },
{
    assert forall|k: int| #[trigger] live_set::is_member_package(m, k) <==> exists|j: int| #[trigger]
        is_package_of_member(m, j, k) by {
        if live_set::is_member_package(m, k) {
            let j = choose|j: int|
                0 <= j < m.workspace_members@.len() && live_set::find_package(
                    m.packages@,
                    #[trigger] m.workspace_members@[j]@,
                ) == Some(k);
            lemma_package_of_member(m, j, k);
            assert(is_package_of_member(m, j, k));
        }
        if exists|j: int| #[trigger] is_package_of_member(m, j, k) {
            let j = choose|j: int| #[trigger] is_package_of_member(m, j, k);
            lemma_package_of_member(m, j, k);
            assert(live_set::find_package(m.packages@, m.workspace_members@[j]@) == Some(k));
        }
    }
    assert forall|j: int, k: int| #[trigger] is_package_of_member(m, j, k)
        implies live_set::is_member_package(m, k) by {}
    assert((exists|k: int| #[trigger]
        live_set::is_member_package(m, k) && live_set::is_target_name(m.packages@[k], name))
        <==> exists|j: int, k: int, t: int|
        #![trigger is_package_of_member(m, j, k), m.packages@[k].targets@[t]]
        is_package_of_member(m, j, k) && 0 <= t < m.packages@[k].targets@.len()
            && m.packages@[k].targets@[t].name@ == name) by {
        if exists|k: int| #[trigger]
            live_set::is_member_package(m, k) && live_set::is_target_name(m.packages@[k], name) {
            let k = choose|k: int| #[trigger]
                live_set::is_member_package(m, k) && live_set::is_target_name(m.packages@[k], name);
            let j = choose|j: int| #[trigger] is_package_of_member(m, j, k);
            let t = choose|t: int|
                0 <= t < m.packages@[k].targets@.len() && name
                    == #[trigger] m.packages@[k].targets@[t].name@;
            assert(is_package_of_member(m, j, k) && m.packages@[k].targets@[t].name@ == name);
        }
    }
    assert((exists|k: int| #[trigger]
        live_set::is_member_package(m, k) && m.packages@[k].name@ == name) <==> exists|
        j: int,
        k: int,
    | #[trigger]
        is_package_of_member(m, j, k) && m.packages@[k].name@ == name) by {
        if exists|k: int| #[trigger]
            live_set::is_member_package(m, k) && m.packages@[k].name@ == name {
            let k = choose|k: int| #[trigger]
                live_set::is_member_package(m, k) && m.packages@[k].name@ == name;
            let j = choose|j: int| #[trigger] is_package_of_member(m, j, k);
            assert(is_package_of_member(m, j, k) && m.packages@[k].name@ == name);
        }
    }
}

/// **The given names are live, and no others.**
pub proof fn given_names_are_live(list: Seq<&str>, name: Seq<char>)
    ensures
        live_set::name_set(list).contains(name) <==> exists|i: int|
            0 <= i < list.len() && (#[trigger] list[i])@ == name,
{
}

/// Whether `t` shows the target `x` of the package `package`: by its name, its
/// package, and the first of its kinds, if it has one.
pub open spec fn shows(t: ListedTarget, x: Target, package: Seq<char>) -> bool {
    &&& t.name == x.name@
    &&& t.package == package
    &&& x.kind@.len() > 0 ==> t.kind == x.kind@[0]@
    &&& x.kind@.len() == 0 ==> t.kind == "unknown"@
}

/// The first targets of a package that are listed.
proof fn lemma_package_targets(p: live_set::Package, n: nat, t: ListedTarget)
    requires
        n <= p.targets@.len(),
    ensures
        live_set::package_targets(p, n).contains(t) <==> t.kind != "custom-build"@ && exists|i: int|
            0 <= i < n && shows(t, #[trigger] p.targets@[i], p.name@),
    decreases n,
{
    if n > 0 {
        let m = (n - 1) as nat;
        lemma_package_targets(p, m, t);
        let before = live_set::package_targets(p, m);
        let x = p.targets@[n - 1];
        let last = ListedTarget { name: x.name@, kind: live_set::listed_kind(x), package: p.name@ };
        assert(shows(t, x, p.name@) <==> t == last);
        assert(before.push(last) =~= before + seq![last]);
        order::lemma_concat_contains(before, seq![last], t);
        assert(seq![last].contains(t) <==> t == last) by {
            assert(seq![last][0] == last);
        }
    }
}

/// **All targets of workspace members are listed, but for build scripts.**
pub proof fn member_targets_are_listed(m: Metadata, n: nat, t: ListedTarget)
    requires
        n <= m.workspace_members@.len(),
    ensures
        live_set::member_targets(m, n).contains(t) <==> t.kind != "custom-build"@ && exists|
            j: int,
            k: int,
            i: int,
        |
            #![trigger is_package_of_member(m, j, k), m.packages@[k].targets@[i]]
            0 <= j < n && is_package_of_member(m, j, k) && 0 <= i < m.packages@[k].targets@.len()
                && shows(t, m.packages@[k].targets@[i], m.packages@[k].name@),
    decreases n,
{
    if n > 0 {
        let before = live_set::member_targets(m, (n - 1) as nat);
        let last = n - 1;
        member_targets_are_listed(m, (n - 1) as nat, t);
        match live_set::find_package(m.packages@, m.workspace_members@[last]@) {
            Some(k) => {
                lemma_package_of_member(m, last, k);
                let p = m.packages@[k];
                lemma_package_targets(p, p.targets@.len(), t);
                order::lemma_concat_contains(
                    before,
                    live_set::package_targets(p, p.targets@.len()),
                    t,
                );
                assert forall|l: int| #[trigger] is_package_of_member(m, last, l) implies l == k by {
                    lemma_package_of_member(m, last, l);
                }
                if exists|i: int|
                    0 <= i < p.targets@.len() && shows(t, #[trigger] p.targets@[i], p.name@) {
                    let i = choose|i: int|
                        0 <= i < p.targets@.len() && shows(t, #[trigger] p.targets@[i], p.name@);
                    assert(is_package_of_member(m, last, k) && shows(
                        t,
                        m.packages@[k].targets@[i],
                        m.packages@[k].name@,
                    ));
                }
            },
            None => {
                assert forall|l: int| !#[trigger] is_package_of_member(m, last, l) by {
                    lemma_package_of_member(m, last, l);
                }
            },
        }
    }
}

/// **Only repeats are left out.** One more target is added, unless it is the same as
/// the one before it.
pub proof fn only_repeats_are_left_out(targets: Seq<ListedTarget>, t: ListedTarget)
    ensures
        live_set::without_repeats(Seq::empty()) == Seq::<ListedTarget>::empty(),
        targets.len() > 0 && targets[targets.len() - 1] == t ==> live_set::without_repeats(
            targets.push(t),
        ) == live_set::without_repeats(targets),
        targets.len() == 0 || targets[targets.len() - 1] != t ==> live_set::without_repeats(
            targets.push(t),
        ) == live_set::without_repeats(targets).push(t),
{
    assert(targets.push(t).drop_last() =~= targets);
}

/// **The target dir that is asked for goes first**, then that of the environment,
/// then the configured one, and last the one beside the manifest.
pub proof fn target_dir_that_is_asked_for_goes_first(
    dir: Result<TargetDir, ResolveError>,
    explicit: Option<std::path::PathBuf>,
    from_env: Option<std::path::PathBuf>,
    site: ManifestSite,
)
    requires
        target_dir::is_target_of(dir, explicit, from_env, site),
    ensures
        explicit matches Some(path) ==> (dir matches Ok(TargetDir::Path(p)) && p == path),
        explicit is None && from_env is Some ==> (dir matches Ok(TargetDir::Path(p)) && p
            == from_env->0),
        explicit is None && from_env is None ==> match target_dir::configured(site.configs@) {
            Configured::At(text) => dir matches Ok(TargetDir::Written(s)) && s@ == text,
            Configured::Unread(place) => dir matches Err(
                ResolveError::Config(ConfigError::Reading(at)),
            ) && at == place,
            Configured::Malformed(place) => dir matches Err(
                ResolveError::Config(ConfigError::Parsing(at, _)),
            ) && at == place,
            Configured::Nowhere => match site.default_target {
                Some(path) => dir matches Ok(TargetDir::Path(p)) && p == path,
                None => dir matches Err(ResolveError::NoParent),
            },
        },
{
}

/// **The nearest manifest is taken**: the first site that has one.
pub proof fn nearest_manifest_is_taken(sites: Seq<ManifestSite>, i: nat)
    ensures
        match target_dir::first_manifest(sites, i) {
            Some(k) => i <= k < sites.len() && sites[k as int].is_file && forall|j: int|
                i <= j < k ==> !(#[trigger] sites[j]).is_file,
            None => forall|j: int| i <= j < sites.len() ==> !(#[trigger] sites[j]).is_file,
        },
    decreases sites.len() - i,
{
    if i < sites.len() && !sites[i as int].is_file {
        nearest_manifest_is_taken(sites, i + 1);
    }
}

/// **The manifest that is asked for goes first**, and it has to be there.
pub proof fn manifest_that_is_asked_for_goes_first(
    explicit: Option<ManifestSite>,
    ancestors: Seq<ManifestSite>,
)
    ensures
        explicit matches Some(site) ==> target_dir::chosen_site(explicit, ancestors) == (
        if site.is_file {
            Some(site)
        } else {
            None
        }),
        explicit is None ==> match target_dir::chosen_site(explicit, ancestors) {
            Some(site) => exists|k: int|
                0 <= k < ancestors.len() && site == #[trigger] ancestors[k] && ancestors[k].is_file
                    && forall|j: int| 0 <= j < k ==> !(#[trigger] ancestors[j]).is_file,
            None => forall|j: int| 0 <= j < ancestors.len() ==> !(#[trigger] ancestors[j]).is_file,
        },
{
    nearest_manifest_is_taken(ancestors, 0);
    if explicit is None && target_dir::first_manifest(ancestors, 0) is Some {
        let k = target_dir::first_manifest(ancestors, 0)->0;
        assert(ancestors[k as int].is_file);
    }
}

/// **A config file says what stands under `build.target-dir`.**
pub proof fn config_file_says_what_stands_under_target_dir(file: ConfigFile)
    ensures
        file is Missing ==> target_dir::word_of(file) is Absent,
        file is Unreadable ==> target_dir::word_of(file) is Unreadable,
        file matches ConfigFile::Contents(contents) ==> match target_dir::toml_string(
            contents@,
            "build"@,
            "target-dir"@,
        ) {
            None => target_dir::word_of(file) is Malformed,
            Some(None) => target_dir::word_of(file) is Absent,
            Some(Some(dir)) => target_dir::word_of(file) == Word::Dir(dir),
        },
{
}

/// What a config file comes to, where it says anything.
pub open spec fn comes_to(word: Word, place: ConfigPlace, c: Configured) -> bool {
    match word {
        Word::Absent => false,
        Word::Dir(dir) => c == Configured::At(dir),
        Word::Unreadable => c == Configured::Unread(place),
        Word::Malformed => c == Configured::Malformed(place),
    }
}

/// **The nearest config file that says anything decides.** Of one dir it is
/// `config.toml`, if that says anything.
pub proof fn nearest_config_file_decides(dirs: Seq<ConfigDir>, k: int)
    requires
        dirs.len() <= usize::MAX,
        0 <= k <= dirs.len(),
        forall|i: int|
            0 <= i < k ==> target_dir::word_of((#[trigger] dirs[i]).config_toml) is Absent
                && target_dir::word_of(dirs[i].config) is Absent,
    ensures
        k == dirs.len() ==> target_dir::configured(dirs) == Configured::Nowhere,
        k < dirs.len() && !(target_dir::word_of(dirs[k].config_toml) is Absent) ==> comes_to(
            target_dir::word_of(dirs[k].config_toml),
            ConfigPlace { dir: k as usize, name: ConfigName::ConfigToml },
            target_dir::configured(dirs),
        ),
        k < dirs.len() && target_dir::word_of(dirs[k].config_toml) is Absent && !(
        target_dir::word_of(dirs[k].config) is Absent) ==> comes_to(
            target_dir::word_of(dirs[k].config),
            ConfigPlace { dir: k as usize, name: ConfigName::Config },
            target_dir::configured(dirs),
        ),
{
    let words = dirs.map_values(|dir: ConfigDir| target_dir::words_of(dir));
    assert forall|i: int| 0 <= i < k implies (#[trigger] words[i]).config_toml is Absent
        && words[i].config is Absent by {
        assert(words[i] == target_dir::words_of(dirs[i]));
    }
    lemma_silent_dirs(words, 0, k as nat);
    if k < dirs.len() {
        assert(words[k] == target_dir::words_of(dirs[k]));
    }
}

/// Dirs that say nothing are passed over.
proof fn lemma_silent_dirs(words: Seq<DirWords>, i: nat, k: nat)
    requires
        i <= k <= words.len(),
        forall|j: int|
            i <= j < k ==> (#[trigger] words[j]).config_toml is Absent && words[j].config is Absent,
    ensures
        target_dir::decided_from(words, i) == target_dir::decided_from(words, k),
    decreases k - i,
{
    if i < k {
        assert(words[i as int].config_toml is Absent);
        lemma_silent_dirs(words, i + 1, k);
    }
}

/// **A spelling that is plain already is kept**, and one with `./` in front or `/`
/// behind means what it means without.
pub proof fn plain_spelling_is_kept(s: Seq<char>)
    ensures
        !(s.len() >= 2 && s[0] == '.' && s[1] == '/') && !(s.len() >= 2 && s[s.len() - 1] == '/')
            && !(s.len() >= 2 && s[s.len() - 1] == '.' && s[s.len() - 2] == '/')
            ==> sweep::spelled_profile(s) == s,
        s.len() > 0 && s[0] != '/' ==> sweep::spelled_profile(seq!['.', '/'] + s)
            == sweep::spelled_profile(s),
        s.len() > 0 && !(s.len() == 1 && s[0] == '.') && !(s.len() >= 2 && s[0] == '.' && s[1]
            == '/') ==> sweep::spelled_profile(s + seq!['/']) == sweep::spelled_profile(s),
{
    let dotted = seq!['.', '/'] + s;
    let slashed = s + seq!['/'];
    assert(dotted.skip(2) =~= s);
    assert(slashed.drop_last() =~= s);
    assert(slashed.last() == '/');
    if s.len() > 0 && s[0] != '/' {
        assert(sweep::plain_front(s, true) == sweep::plain_front(s, false));
    }
}

/// **The program is called by cargo if `gc` stands behind its name.**
pub proof fn subcommand_stands_behind_the_program(args: Seq<Option<String>>)
    ensures
        args.len() < 2 ==> !cli::is_subcommand_call(args),
        args.len() >= 2 && args[1] is None ==> !cli::is_subcommand_call(args),
        args.len() >= 2 && args[1] is Some ==> (cli::is_subcommand_call(args) <==> (args[1]->0)@
            == "gc"@),
{
}

/// **The marks of git are left out**: a text without `-g` is kept, and the first
/// `-g` of another becomes a dash.
pub proof fn marks_of_git_are_left_out(x: Seq<char>, y: Seq<char>)
    ensures
        (forall|at: int| !#[trigger] plain::is_at(x, "-g"@, at)) ==> version::without_git_marks(x)
            == x,
        plain::is_first_at(x + "-g"@ + y, "-g"@, x.len() as int) ==> version::without_git_marks(
            x + "-g"@ + y,
        ) == x + "-"@ + version::without_git_marks(y),
    decreases x.len(),
{
    reveal_strlit("-g");
    reveal_strlit("-");
    let mark = "-g"@;
    let s = x + mark + y;
    assert(mark =~= seq!['-', 'g']);
    assert("-"@ =~= seq!['-']);
    if x.len() == 0 {
        assert(version::without_git_marks(x) =~= x);
        assert(s[0] == '-' && s[1] == 'g');
        assert(s.skip(2) =~= y);
        assert(x + "-"@ + version::without_git_marks(y) =~= seq!['-'] + version::without_git_marks(
            y,
        ));
    } else {
        let rest = x.drop_first();
        let t = rest + mark + y;
        marks_of_git_are_left_out(rest, y);
        assert(s.drop_first() =~= t);
        assert(x =~= seq![x[0]] + rest);
        if forall|at: int| !#[trigger] plain::is_at(x, mark, at) {
            assert forall|at: int| !#[trigger] plain::is_at(rest, mark, at) by {
                if plain::is_at(rest, mark, at) {
                    lemma_shifted(x, mark, at);
                }
            }
            assert(!(x.len() >= 2 && x[0] == '-' && x[1] == 'g')) by {
                if x.len() >= 2 && x[0] == '-' && x[1] == 'g' {
                    assert forall|i: int| 0 <= i < mark.len() implies x[0 + i] == #[trigger] mark[i] by {
                        assert(i == 0 || i == 1);
                    }
                    assert(plain::is_at(x, mark, 0));
                }
            }
        }
        if plain::is_first_at(s, mark, x.len() as int) {
            assert(plain::is_first_at(t, mark, rest.len() as int)) by {
                assert forall|i: int| 0 <= i < mark.len() implies t[rest.len() + i]
                    == #[trigger] mark[i] by {}
                assert forall|k: int| 0 <= k < rest.len() implies !#[trigger] plain::is_at(
                    t,
                    mark,
                    k,
                ) by {
                    if plain::is_at(t, mark, k) {
                        lemma_shifted(s, mark, k);
                        assert(plain::is_at(s, mark, k + 1));
                    }
                }
            }
            assert(!(s.len() >= 2 && s[0] == '-' && s[1] == 'g')) by {
                if s[0] == '-' && s[1] == 'g' {
                    assert forall|i: int| 0 <= i < mark.len() implies s[0 + i] == #[trigger] mark[i] by {
                        assert(i == 0 || i == 1);
                    }
                    assert(plain::is_at(s, mark, 0));
                }
            }
            assert(version::without_git_marks(s) =~= x + "-"@ + version::without_git_marks(y));
        }
    }
}

/// What stands in a text without its first character stands one further in it.
proof fn lemma_shifted(s: Seq<char>, needle: Seq<char>, at: int)
    requires
        s.len() > 0,
        plain::is_at(s.drop_first(), needle, at),
    ensures
        plain::is_at(s, needle, at + 1),
{
    assert forall|i: int| 0 <= i < needle.len() implies s[at + 1 + i] == #[trigger] needle[i] by {
        assert(s.drop_first()[at + i] == needle[i]);
    }
}

/// **A version is described without white space and without a `v` in front.**
pub proof fn version_is_described_without_a_v(a: Seq<char>, t: Seq<char>, b: Seq<char>)
    requires
        plain::is_all_blank(a),
        plain::is_all_blank(b),
        plain::has_no_margin(t),
    ensures
        t.len() > 0 && t[0] == 'v' ==> version::described(a + t + b) == version::without_git_marks(
            t.skip(1),
        ),
        t.len() == 0 || t[0] != 'v' ==> version::described(a + t + b)
            == version::without_git_marks(t),
{
    text_laws::trimming_takes_the_margin(a, t, b);
    if t.len() > 0 {
        assert(t.skip(1) =~= t.drop_first());
    }
}

/// **A point in time is shown by its second and its age in hours.**
pub proof fn time_is_shown_by_second_and_age(t: int, now: int, second: nat, hours: nat)
    ensures
        now < t ==> report::time_text(t, now) == "future"@,
        t <= now && (t < 0 ==> second == 0) && (t >= 0 ==> second * 1_000_000_000 <= t < (second + 1)
            * 1_000_000_000) && hours * 3_600_000_000_000 <= now - t < (hours + 1)
            * 3_600_000_000_000 ==> report::time_text(t, now) == "epoch "@ + text::decimal(second)
            + " (~"@ + text::decimal(hours) + " h ago)"@,
{
    if t <= now && hours * 3_600_000_000_000 <= now - t < (hours + 1) * 3_600_000_000_000 {
        assert(((now - t) / 1_000_000_000) / 3600 == hours);
    }
    if t >= 0 && second * 1_000_000_000 <= t < (second + 1) * 1_000_000_000 {
        assert(t / 1_000_000_000 == second);
    }
}

/// **The summary tells how many files and dirs went, and how many bytes.**
pub proof fn summary_tells_what_went(r: SweepReport)
    ensures
        report::summary_text(r, true) == text::decimal(r.removed_files as nat) + " files, "@
            + text::decimal(r.removed_dirs as nat) + " dirs, "@ + "would free"@ + " "@
            + sweep::human_text(r.freed_bytes as nat),
        report::summary_text(r, false) == text::decimal(r.removed_files as nat) + " files, "@
            + text::decimal(r.removed_dirs as nat) + " dirs, "@ + "freed"@ + " "@
            + sweep::human_text(r.freed_bytes as nat),
{
}

/// **A target is shown by its kind in a column, its name and its package.**
pub proof fn target_is_shown_in_columns(t: ListedTarget, fill: Seq<char>)
    requires
        forall|i: int| 0 <= i < fill.len() ==> #[trigger] fill[i] == ' ',
        t.kind.len() + fill.len() == 8 || (t.kind.len() > 8 && fill.len() == 0),
    ensures
        report::target_text(t) == "  "@ + t.kind + fill + " "@ + t.name + "  ("@ + t.package
            + ")"@,
{
    let n = if t.kind.len() < 8 {
        (8 - t.kind.len()) as nat
    } else {
        0
    };
    assert(report::spaces(n) =~= fill);
    assert("  "@ + (t.kind + fill) =~= "  "@ + t.kind + fill);
}

/// **Sizes add up.**
pub proof fn sizes_add_up(a: Seq<u64>, b: Seq<u64>, size: u64)
    ensures
        sweep::size_sum(Seq::empty()) == 0,
        sweep::size_sum(seq![size]) == size,
        sweep::size_sum(a + b) == sweep::size_sum(a) + sweep::size_sum(b),
    decreases b.len(),
{
    assert(seq![size].drop_last() =~= Seq::<u64>::empty());
    assert(sweep::size_sum(Seq::<u64>::empty()) == 0);
    if b.len() > 0 {
        sizes_add_up(a, b.drop_last(), size);
        assert((a + b).drop_last() =~= a + b.drop_last());
    } else {
        assert(a + b =~= a);
    }
}

/// **A report counts what went.** Merging adds the files, the dirs and the bytes; a
/// file counts as one file and a dir as one dir, with its bytes. What was not there
/// any more does not count, nor does a cache that goes with a superseded
/// dependency.
pub proof fn report_counts_what_went(a: SweepReport, b: SweepReport, r: Removal, size: u64)
    ensures
        a.can_merge(b) ==> {
            let c = a.merged(b);
            &&& c.removed_files == a.removed_files + b.removed_files
            &&& c.removed_dirs == a.removed_dirs + b.removed_dirs
            &&& c.freed_bytes == a.freed_bytes + b.freed_bytes
        },
        a.can_merge(b) <==> a.removed_files + b.removed_files <= usize::MAX && a.removed_dirs
            + b.removed_dirs <= usize::MAX && a.freed_bytes + b.freed_bytes <= u64::MAX,
        ({
            let c = plan::report_of(r, Some(size));
            match r {
                Removal::ZombieCache(_) => c.removed_files == 0 && c.removed_dirs == 0
                    && c.freed_bytes == 0,
                Removal::DepsFile(_) | Removal::TopLevelFile(_) | Removal::ExampleFile(_) => {
                    c.removed_files == 1 && c.removed_dirs == 0 && c.freed_bytes == size
                },
                Removal::SessionLock { .. } => c.removed_files == 1 && c.removed_dirs == 0
                    && c.freed_bytes == size,
                Removal::BuildDir(_) | Removal::Cache(_) | Removal::Fingerprint(_) => {
                    c.removed_files == 0 && c.removed_dirs == 1 && c.freed_bytes == size
                },
                Removal::Session { .. } => c.removed_files == 0 && c.removed_dirs == 1
                    && c.freed_bytes == size,
            }
        }),
        plan::report_of(r, None).removed_files == 0,
        plan::report_of(r, None).removed_dirs == 0,
        plan::report_of(r, None).freed_bytes == 0,
{
}

/// A rounded quotient is the nearest one, and of two the even one.
proof fn lemma_rounded(n: nat, d: nat)
    requires
        d > 0,
    ensures
        ({
            let r = sweep::round_half_even(n, d);
            let off = 2 * (r * d - n);
            &&& -(d as int) <= off <= d
            &&& off == d || off == -(d as int) ==> r % 2 == 0
        }),
{
    let q = n / d;
    let rest = n % d;
    vstd::arithmetic::div_mod::lemma_fundamental_div_mod(n as int, d as int);
    assert(q * d == d * q) by (nonlinear_arith);
    assert((q + 1) * d == q * d + d) by (nonlinear_arith);
}

/// The numbers around one of 64 bits are at most 2048 apart.
proof fn lemma_spacing(n: nat)
    requires
        n <= u64::MAX,
    ensures
        1 <= sweep::spacing(n) <= 2048,
        n < 9_007_199_254_740_992 ==> sweep::spacing(n) == 1,
{
    reveal_with_fuel(sweep::spacing, 13);
}

/// **A size is shown in the largest unit that it fills, to the nearest tenth.** Below
/// 1024 bytes it is shown as it stands. Past 53 bits it is first rounded to a number
/// that is at most 1024 bytes off.
pub proof fn size_is_shown_to_the_nearest_tenth(bytes: nat, unit: char, size: nat)
    requires
        bytes <= u64::MAX,
        ({
            ||| bytes < 1024 && size == 1 && unit == 'B'
            ||| 1024 <= bytes < 1_048_576 && size == 1024 && unit == 'K'
            ||| 1_048_576 <= bytes < 1_073_741_824 && size == 1_048_576 && unit == 'M'
            ||| 1_073_741_824 <= bytes < 1_099_511_627_776 && size == 1_073_741_824 && unit == 'G'
            ||| 1_099_511_627_776 <= bytes && size == 1_099_511_627_776 && unit == 'T'
        }),
    ensures
        unit == 'B' ==> sweep::human_text(bytes) == text::decimal(bytes) + " B"@,
        unit != 'B' ==> exists|tenths: nat, near: nat|
            #![trigger text::decimal(tenths / 10), is_near(bytes, near)]
            is_near(bytes, near) && sweep::human_text(bytes) == text::decimal(tenths / 10) + "."@
                + text::decimal(tenths % 10) + seq![' ', unit] && is_nearest_tenth(
                near,
                size,
                tenths,
            ),
{
    reveal_strlit(" B");
    reveal_strlit(".");
    assert(" B"@ =~= seq![' ', 'B']);
    assert("."@ =~= seq!['.']);
    if unit != 'B' {
        let near = sweep::nearest_double(bytes);
        let step = sweep::spacing(bytes);
        lemma_spacing(bytes);
        lemma_rounded(bytes, step);
        if bytes < 9_007_199_254_740_992 {
            assert(sweep::round_half_even(bytes, 1) * 1 == sweep::round_half_even(bytes, 1));
        }
        assert(is_near(bytes, near));
        let k = sweep::unit_index(bytes);
        assert(sweep::unit_size(k) == size);
        let tenths = sweep::round_half_even(10 * near, size);
        lemma_rounded(10 * near, size);
        assert(is_nearest_tenth(near, size, tenths));
        let d = tenths % 10;
        text_laws::digits_have_their_place_value(0, d);
        assert(text::decimal(d) =~= seq![text::digit_char(d as int)]);
        assert(sweep::human_text(bytes) =~= text::decimal(tenths / 10) + "."@ + text::decimal(d)
            + seq![' ', unit]);
    }
}

/// Whether `near` is `bytes`, or past 53 bits a number at most 1024 off.
pub open spec fn is_near(bytes: nat, near: nat) -> bool {
    &&& bytes < 9_007_199_254_740_992 ==> near == bytes
    &&& -1024 <= near - bytes <= 1024
}

/// Whether `tenths` are the nearest tenths of `size` to `n`, and of two the even ones.
pub open spec fn is_nearest_tenth(n: nat, size: nat, tenths: nat) -> bool {
    let off = 2 * (tenths * size - 10 * n);
    &&& -(size as int) <= off <= size
    &&& off == size || off == -(size as int) ==> tenths % 2 == 0
}

/// **Settings say what a config file says**, each in its own kind, and so does what
/// they come to.
pub proof fn settings_say_what_a_file_says(
    dir: String,
    e: toml::de::Error,
    both: DirSettings,
    place: ConfigPlace,
    file: ConfigDir,
)
    ensures
        Setting::Absent@ == Word::Absent,
        Setting::Dir(dir)@ == Word::Dir(dir@),
        Setting::Unreadable@ == Word::Unreadable,
        Setting::Malformed(e)@ == Word::Malformed,
        both@.config_toml == both.config_toml@,
        both@.config == both.config@,
        target_dir::words_of(file).config_toml == target_dir::word_of(file.config_toml),
        target_dir::words_of(file).config == target_dir::word_of(file.config),
        target_dir::configured_by(Ok(None)) == Configured::Nowhere,
        target_dir::configured_by(Ok(Some(dir))) == Configured::At(dir@),
        target_dir::configured_by(Err(ConfigError::Reading(place))) == Configured::Unread(place),
        target_dir::configured_by(Err(ConfigError::Parsing(place, e))) == Configured::Malformed(
            place,
        ),
{
}

/// **A listing stands for its entries**: targets by their name, kind and package,
/// profile dirs by their entry, and sweeps by their place.
pub proof fn listing_stands_for_its_entries(
    targets: Seq<WorkspaceTarget>,
    dirs: Seq<ProfileDir>,
    sweeps: Seq<ProfileSweep>,
    inv: Inventory,
    i: int,
)
    ensures
        live_set::listed(targets).len() == targets.len(),
        0 <= i < targets.len() ==> {
            let t = live_set::listed(targets)[i];
            t.name == targets[i].name@ && t.kind == targets[i].kind@ && t.package
                == targets[i].package@
        },
        sweep::entries_of(dirs).len() == dirs.len(),
        0 <= i < dirs.len() ==> sweep::entries_of(dirs)[i] == dirs[i].entry,
        sweep::places_of(sweeps).len() == sweeps.len(),
        0 <= i < sweeps.len() ==> sweep::places_of(sweeps)[i] == sweeps[i].place,
        inv@.live == inv.live_hashes@,
        inv@.stale == inv.stale_fingerprints@,
{
}

/// **A run visits profile dirs in the order of their listing, each once.**
pub proof fn profiles_are_visited_in_order(
    entries: Seq<TargetEntry>,
    opts: SweepOptions,
    i: usize,
    a: int,
    b: int,
)
    requires
        entries.len() <= usize::MAX,
    ensures
        sweep::visited_profiles(entries, opts).contains(i) <==> i < entries.len()
            && sweep::is_visited(entries[i as int], opts),
        0 <= a < b < sweep::visited_profiles(entries, opts).len() ==> sweep::visited_profiles(
            entries,
            opts,
        )[a] < sweep::visited_profiles(entries, opts)[b],
{
    let visited = |k: int| sweep::is_visited(entries[k], opts);
    order::lemma_picks(entries.len(), visited);
    assert(order::picks(entries.len(), visited).contains(i) <==> i < entries.len() && visited(
        i as int,
    ));
}

} // verus!
