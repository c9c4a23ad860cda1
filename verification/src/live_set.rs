//! The "live set" — the union of crate-name-style identifiers that the
//! current project considers in-bounds. Anything in `target/.../` whose
//! name prefix isn't in this set is fair game for the sweeper.
//!
//! Sources:
//!   * every package name that cargo's metadata lists (i.e. the transitive
//!     Cargo.lock graph)
//!   * every target name belonging to a workspace member (bin, lib, example,
//!     test, bench) — these can differ from the package name and are what
//!     cargo uses as the unit prefix on disk
//!   * the literal `"build_script_build"`, which is the prefix cargo uses
//!     in `incremental/` for build-script units regardless of crate

use vstd::prelude::*;

use crate::inventory::{self, to_snake};
use crate::names::NameSet;
use crate::order::{self, rank, Ranking};
use crate::text::{self, chars_of, same_text, text_not_after};

verus! {

broadcast use vstd::seq::group_seq_axioms;

/// One build target of a package.
#[derive(Debug)]
pub struct Target {
    pub name: String,
    /// The kinds of the target, `"bin"`, `"lib"` and the like.
    pub kind: Vec<String>,
}

/// One package of the dependency graph.
#[derive(Debug)]
pub struct Package {
    /// What names the package in the list of workspace members.
    pub id: String,
    pub name: String,
    pub targets: Vec<Target>,
}

/// What cargo's metadata says of a project.
#[derive(Debug)]
pub struct Metadata {
    pub packages: Vec<Package>,
    /// The ids of the packages that belong to the workspace.
    pub workspace_members: Vec<String>,
}

/// The snake_case forms of the names in `s`.
pub open spec fn snake_all(s: Set<Seq<char>>) -> Set<Seq<char>> {
    s.map(|name: Seq<char>| inventory::snake(name))
}

/// The names that `list` holds.
pub open spec fn name_set(list: Seq<&str>) -> Set<Seq<char>> {
    Set::new(|name: Seq<char>| exists|i: int| 0 <= i < list.len() && name == #[trigger] list[i]@)
}

/// The prefix of build-script units in `incremental/`.
pub open spec fn build_script_name() -> Seq<char> {
    "build_script_build"@
}

/// The package with the id `id`: the first one that has it.
pub open spec fn find_package(packages: Seq<Package>, id: Seq<char>) -> Option<int>
    decreases packages.len(),
{
    if packages.len() == 0 {
        None
    } else {
        match find_package(packages.drop_last(), id) {
            Some(k) => Some(k),
            None => if packages.last().id@ == id {
                Some(packages.len() - 1)
            } else {
                None
            },
        }
    }
}

/// Whether the package at `k` is the one that some workspace member id stands for.
pub open spec fn is_member_package(m: Metadata, k: int) -> bool {
    exists|j: int|
        0 <= j < m.workspace_members@.len() && find_package(
            m.packages@,
            #[trigger] m.workspace_members@[j]@,
        ) == Some(k)
}

/// Whether `name` is the name of a target of `p`.
pub open spec fn is_target_name(p: Package, name: Seq<char>) -> bool {
    exists|t: int| 0 <= t < p.targets@.len() && name == #[trigger] p.targets@[t].name@
}

/// The names in use by the project: every package name, every target name of a
/// workspace member, and the name of build scripts.
pub open spec fn crate_names(m: Metadata) -> Set<Seq<char>> {
    Set::new(
        |name: Seq<char>|
            {
                ||| exists|k: int| 0 <= k < m.packages@.len() && name == #[trigger] m.packages@[k].name@
                ||| exists|k: int| #[trigger]
                    is_member_package(m, k) && is_target_name(m.packages@[k], name)
                ||| name == build_script_name()
            },
    )
}

/// The names of the workspace: the name and the target names of each member.
pub open spec fn member_names(m: Metadata) -> Set<Seq<char>> {
    Set::new(
        |name: Seq<char>|
            exists|k: int| #[trigger]
                is_member_package(m, k) && (name == m.packages@[k].name@ || is_target_name(
                    m.packages@[k],
                    name,
                )),
    )
}

/// What `find_package` finds is the first package with the id.
pub proof fn lemma_find_package(packages: Seq<Package>, id: Seq<char>)
    ensures
        match find_package(packages, id) {
            Some(k) => 0 <= k < packages.len() && packages[k].id@ == id && forall|l: int|
                0 <= l < k ==> (#[trigger] packages[l]).id@ != id,
            None => forall|l: int| 0 <= l < packages.len() ==> (#[trigger] packages[l]).id@ != id,
        },
    decreases packages.len(),
{
    if packages.len() > 0 {
        let init = packages.drop_last();
        lemma_find_package(init, id);
        assert forall|l: int| 0 <= l < packages.len() - 1 implies init[l] == #[trigger] packages[l] by {}
    }
}

/// The package with the id `id`.
fn package_with_id(packages: &Vec<Package>, id: &String) -> (r: Option<usize>)
    ensures
        match r {
            Some(k) => k < packages@.len() && find_package(packages@, id@) == Some(k as int),
            None => find_package(packages@, id@) is None,
        },
{
    let mut k: usize = 0;
    while k < packages.len()
        invariant
            k <= packages.len(),
            forall|l: int| 0 <= l < k ==> (#[trigger] packages@[l]).id@ != id@,
        decreases packages.len() - k,
    {
        if packages[k].id == *id {
            proof {
                lemma_find_package(packages@, id@);
            }
            return Some(k);
        }
        k = k + 1;
    }
    proof {
        lemma_find_package(packages@, id@);
    }
    None
}

/// Whether `name` is a target name of the package that the `i`-th workspace
/// member id stands for.
spec fn names_target(m: Metadata, i: int, name: Seq<char>) -> bool {
    match find_package(m.packages@, m.workspace_members@[i]@) {
        Some(k) => is_target_name(m.packages@[k], name),
        None => false,
    }
}

/// Whether `name` is the name or a target name of the package that the `i`-th
/// workspace member id stands for.
spec fn names_member(m: Metadata, i: int, name: Seq<char>) -> bool {
    match find_package(m.packages@, m.workspace_members@[i]@) {
        Some(k) => name == m.packages@[k].name@ || is_target_name(m.packages@[k], name),
        None => false,
    }
}

/// A set of names that also knows their snake_case forms.
pub struct NameForms {
    plain: NameSet,
    snake: NameSet,
}

impl View for NameForms {
    type V = Set<Seq<char>>;

    closed spec fn view(&self) -> Set<Seq<char>> {
        self.plain@
    }
}

impl NameForms {
    #[verifier::type_invariant]
    spec fn well_formed(self) -> bool {
        self.snake@ == snake_all(self.plain@)
    }

    /// The empty set.
    pub fn new() -> (r: NameForms)
        ensures
            r@ == Set::<Seq<char>>::empty(),
    {
        let plain = NameSet::new();
        let snake = NameSet::new();
        assert(snake@ =~= snake_all(plain@));
        NameForms { plain, snake }
    }

    /// The set with `name` added.
    pub fn with(self, name: &str) -> (r: NameForms)
        ensures
            r@ == self@.insert(name@),
    {
        proof {
            use_type_invariant(&self);
        }
        let NameForms { mut plain, mut snake } = self;
        let ghost before = plain@;
        let ghost snakes_before = snake@;
        plain.insert(name.to_owned());
        snake.insert(to_snake(name));
        proof {
            assert forall|s: Seq<char>| snake@.contains(s) == snake_all(plain@).contains(s) by {
                if snake_all(plain@).contains(s) {
                    let x = choose|x: Seq<char>| plain@.contains(x) && s == inventory::snake(x);
                    if x != name@ {
                        assert(before.contains(x));
                        assert(snake_all(before).contains(s));
                    }
                }
                if snakes_before.contains(s) {
                    let x = choose|x: Seq<char>| before.contains(x) && s == inventory::snake(x);
                    assert(plain@.contains(x));
                }
                if s == inventory::snake(name@) {
                    assert(plain@.contains(name@));
                }
            }
            assert(snake@ =~= snake_all(plain@));
        }
        NameForms { plain, snake }
    }

    /// Whether `name` is in the set as written.
    pub fn contains(&self, name: &str) -> (r: bool)
        ensures
            r == self@.contains(name@),
    {
        self.plain.contains(name)
    }

    /// Whether `name` is the snake_case form of a name in the set.
    pub fn contains_snake(&self, name: &str) -> (r: bool)
        ensures
            r == snake_all(self@).contains(name@),
    {
        proof {
            use_type_invariant(self);
        }
        self.snake.contains(name)
    }

    /// Whether `name` is in the set as written, or as a snake_case form.
    pub fn contains_either(&self, name: &str) -> (r: bool)
        ensures
            r == (self@.contains(name@) || snake_all(self@).contains(name@)),
    {
        self.contains(name) || self.contains_snake(name)
    }

    /// How many names the set holds.
    pub fn len(&self) -> (r: usize)
        ensures
            r == self@.len(),
    {
        self.plain.len()
    }

    /// Whether the set holds no name.
    pub fn is_empty(&self) -> (r: bool)
        ensures
            r == self@.is_empty(),
    {
        self.plain.is_empty()
    }
}

/// `set` with the target names of `package` added.
fn with_targets(set: NameForms, package: &Package) -> (r: NameForms)
    ensures
        forall|name: Seq<char>| #[trigger]
            r@.contains(name) <==> set@.contains(name) || is_target_name(*package, name),
{
    let ghost before = set@;
    let mut out = set;
    let mut t: usize = 0;
    while t < package.targets.len()
        invariant
            t <= package.targets.len(),
            forall|name: Seq<char>| #[trigger]
                out@.contains(name) <==> before.contains(name) || exists|u: int|
                    0 <= u < t && name == #[trigger] package.targets@[u].name@,
        decreases package.targets.len() - t,
    {
        out = out.with(package.targets[t].name.as_str());
        t = t + 1;
    }
    out
}

/// Names the project considers in-bounds. We hold both the form as written
/// (for matching `.fingerprint/` dir prefixes, which use package names
/// as-written) and the snake-cased form (for matching `deps/` filenames,
/// `incremental/` dir prefixes, and top-level workspace bin filenames).
pub struct LiveSet {
    /// Union of every package name AND every workspace member's target names
    /// (bin/lib/example/test/bench).
    crates: NameForms,
    /// Package and target names of the workspace members.
    members: NameForms,
}

/// The names that a `LiveSet` stands for.
#[verifier::ext_equal]
pub struct LiveNames {
    /// The names in use, as written.
    pub crates: Set<Seq<char>>,
    /// The names of the workspace members, as written.
    pub members: Set<Seq<char>>,
}

impl LiveNames {
    /// Whether `name` is in use, as written or in snake_case.
    pub open spec fn matches(self, name: Seq<char>) -> bool {
        self.crates.contains(name) || snake_all(self.crates).contains(name)
    }

    /// Whether `name` is the name of a workspace member, as written or in
    /// snake_case.
    pub open spec fn is_member_prefix(self, name: Seq<char>) -> bool {
        self.members.contains(name) || snake_all(self.members).contains(name)
    }
}

impl View for LiveSet {
    type V = LiveNames;

    closed spec fn view(&self) -> LiveNames {
        LiveNames { crates: self.crates@, members: self.members@ }
    }
}

impl LiveSet {
    /// The live set of the project that `metadata` describes.
    pub fn from_manifest(metadata: &Metadata) -> (r: LiveSet)
        ensures
            r@.crates == crate_names(*metadata),
            r@.members == member_names(*metadata),
    {
        let mut crates = NameForms::new();
        let mut members = NameForms::new();
        let mut k: usize = 0;
        while k < metadata.packages.len()
            invariant
                k <= metadata.packages.len(),
                forall|name: Seq<char>| #[trigger]
                    crates@.contains(name) <==> exists|l: int|
                        0 <= l < k && name == #[trigger] metadata.packages@[l].name@,
            decreases metadata.packages.len() - k,
        {
            crates = crates.with(metadata.packages[k].name.as_str());
            k = k + 1;
        }
        let ghost packages_named = crates@;
        let mut j: usize = 0;
        while j < metadata.workspace_members.len()
            invariant
                j <= metadata.workspace_members.len(),
                forall|name: Seq<char>| #[trigger]
                    crates@.contains(name) <==> packages_named.contains(name) || exists|i: int|
                        0 <= i < j && #[trigger] names_target(*metadata, i, name),
                forall|name: Seq<char>| #[trigger]
                    members@.contains(name) <==> exists|i: int|
                        0 <= i < j && #[trigger] names_member(*metadata, i, name),
            decreases metadata.workspace_members.len() - j,
        {
            let ghost crates_before = crates@;
            let ghost members_before = members@;
            let id = &metadata.workspace_members[j];
            if let Some(at) = package_with_id(&metadata.packages, id) {
                let package = &metadata.packages[at];
                crates = with_targets(crates, package);
                members = with_targets(members.with(package.name.as_str()), package);
            }
            proof {
                assert forall|name: Seq<char>| #[trigger]
                    crates@.contains(name) <==> packages_named.contains(name) || exists|i: int|
                        0 <= i < j + 1 && #[trigger] names_target(*metadata, i, name) by {
                    assert(crates@.contains(name) <==> crates_before.contains(name)
                        || names_target(*metadata, j as int, name));
                }
                assert forall|name: Seq<char>| #[trigger]
                    members@.contains(name) <==> exists|i: int|
                        0 <= i < j + 1 && #[trigger] names_member(*metadata, i, name) by {
                    assert(members@.contains(name) <==> members_before.contains(name)
                        || names_member(*metadata, j as int, name));
                }
            }
            j = j + 1;
        }
        // Cargo uses this literal as the dir prefix in incremental/ for
        // build-script units regardless of the parent crate.
        crates = crates.with("build_script_build");
        proof {
            assert forall|name: Seq<char>|
                crates@.contains(name) == crate_names(*metadata).contains(name) by {
                lemma_member_targets(*metadata, name);
            }
            assert forall|name: Seq<char>|
                members@.contains(name) == member_names(*metadata).contains(name) by {
                lemma_member_targets(*metadata, name);
            }
            assert(crates@ =~= crate_names(*metadata));
            assert(members@ =~= member_names(*metadata));
        }
        LiveSet { crates, members }
    }

    /// The live set of the names `crates`, of which the workspace has `members`.
    fn from_set(crates: &[&str], members: &[&str]) -> (r: LiveSet)
        ensures
            r@.crates == name_set(crates@).insert(build_script_name()),
            r@.members == name_set(members@),
    {
        let all = forms_of(crates).with("build_script_build");
        LiveSet { crates: all, members: forms_of(members) }
    }

    /// A live set of the given names and no workspace members.
    pub fn from_names(names: &[&str]) -> (r: LiveSet)
        ensures
            r@.crates == name_set(names@).insert(build_script_name()),
            r@.members == Set::<Seq<char>>::empty(),
    {
        let r = LiveSet::from_set(names, &[]);
        assert(r@.members =~= Set::<Seq<char>>::empty());
        r
    }

    /// A live set of the given names, of which the workspace has `members`.
    pub fn from_names_with_ws(names: &[&str], members: &[&str]) -> (r: LiveSet)
        ensures
            r@.crates == name_set(names@).insert(build_script_name()),
            r@.members == name_set(members@),
    {
        LiveSet::from_set(names, members)
    }

    /// Match against names as written (used for `.fingerprint/` prefixes).
    pub fn contains(&self, name: &str) -> (r: bool)
        ensures
            r == self@.crates.contains(name@),
    {
        self.crates.contains(name)
    }

    /// Match against snake-cased names (used for `incremental/` prefixes
    /// and `deps/` filename roots).
    pub fn contains_snake(&self, name: &str) -> (r: bool)
        ensures
            r == snake_all(self@.crates).contains(name@),
    {
        self.crates.contains_snake(name)
    }

    /// Match either form. Used for top-level workspace artifacts whose
    /// filenames may use the name as written or the snake form depending on which
    /// kind of target produced them.
    pub fn matches_any(&self, name: &str) -> (r: bool)
        ensures
            r == self@.matches(name@),
    {
        self.crates.contains_either(name)
    }

    /// Whether `name` is the package or a target name of a workspace member.
    pub fn is_workspace_member(&self, name: &str) -> (r: bool)
        ensures
            r == self@.members.contains(name@),
    {
        self.members.contains(name)
    }

    /// All workspace member names (package and target), which know their
    /// snake_case forms.
    pub fn workspace_member_prefixes(&self) -> (r: &NameForms)
        ensures
            r@ == self@.members,
    {
        &self.members
    }

    /// How many names are live.
    pub fn len(&self) -> (r: usize)
        ensures
            r == self@.crates.len(),
    {
        self.crates.len()
    }

    /// Whether no name is live.
    pub fn is_empty(&self) -> (r: bool)
        ensures
            r == self@.crates.is_empty(),
    {
        self.crates.is_empty()
    }
}

/// The names of `list`.
fn forms_of(list: &[&str]) -> (r: NameForms)
    ensures
        r@ == name_set(list@),
{
    let mut out = NameForms::new();
    let mut i: usize = 0;
    while i < list.len()
        invariant
            i <= list.len(),
            forall|name: Seq<char>| #[trigger]
                out@.contains(name) <==> exists|j: int| 0 <= j < i && name == #[trigger] list@[j]@,
        decreases list.len() - i,
    {
        out = out.with(list[i]);
        i = i + 1;
    }
    assert(out@ =~= name_set(list@));
    out
}

/// The members that the list of ids stands for, one by one.
proof fn lemma_member_targets(m: Metadata, name: Seq<char>)
    ensures
        (exists|i: int| 0 <= i < m.workspace_members@.len() && #[trigger] names_target(m, i, name))
            <==> exists|k: int| #[trigger]
            is_member_package(m, k) && is_target_name(m.packages@[k], name),
        (exists|i: int| 0 <= i < m.workspace_members@.len() && #[trigger] names_member(m, i, name))
            <==> exists|k: int| #[trigger]
            is_member_package(m, k) && (name == m.packages@[k].name@ || is_target_name(
                m.packages@[k],
                name,
            )),
{
    let n = m.workspace_members@.len() as int;
    assert forall|i: int| 0 <= i < n && #[trigger] names_target(m, i, name) implies exists|k: int|
        #[trigger] is_member_package(m, k) && is_target_name(m.packages@[k], name) by {
        let k = find_package(m.packages@, m.workspace_members@[i]@)->0;
        assert(is_member_package(m, k));
    }
    assert forall|i: int| 0 <= i < n && #[trigger] names_member(m, i, name) implies exists|k: int|
        #[trigger] is_member_package(m, k) && (name == m.packages@[k].name@ || is_target_name(
            m.packages@[k],
            name,
        )) by {
        let k = find_package(m.packages@, m.workspace_members@[i]@)->0;
        assert(is_member_package(m, k));
    }
    assert forall|k: int| #[trigger]
        is_member_package(m, k) && is_target_name(m.packages@[k], name) implies exists|i: int|
        0 <= i < n && #[trigger] names_target(m, i, name) by {
        let i = choose|i: int|
            0 <= i < n && find_package(m.packages@, #[trigger] m.workspace_members@[i]@) == Some(k);
        assert(names_target(m, i, name));
    }
    assert forall|k: int| #[trigger]
        is_member_package(m, k) && (name == m.packages@[k].name@ || is_target_name(
            m.packages@[k],
            name,
        )) implies exists|i: int| 0 <= i < n && #[trigger] names_member(m, i, name) by {
        let i = choose|i: int|
            0 <= i < n && find_package(m.packages@, #[trigger] m.workspace_members@[i]@) == Some(k);
        assert(names_member(m, i, name));
    }
}

/// One workspace target as printed by `--list-targets`.
#[derive(Debug, Clone)]
pub struct WorkspaceTarget {
    pub name: String,
    pub kind: String,
    pub package: String,
}

/// What a `WorkspaceTarget` stands for.
#[verifier::ext_equal]
pub struct ListedTarget {
    pub name: Seq<char>,
    pub kind: Seq<char>,
    pub package: Seq<char>,
}

impl View for WorkspaceTarget {
    type V = ListedTarget;

    open spec fn view(&self) -> ListedTarget {
        ListedTarget { name: self.name@, kind: self.kind@, package: self.package@ }
    }
}

/// The kind that a target is listed under.
pub open spec fn listed_kind(t: Target) -> Seq<char> {
    if t.kind@.len() > 0 {
        t.kind@[0]@
    } else {
        "unknown"@
    }
}

/// The first `n` targets of a package, without build scripts.
pub open spec fn package_targets(p: Package, n: nat) -> Seq<ListedTarget>
    decreases n,
{
    if n == 0 {
        Seq::empty()
    } else {
        let t = p.targets@[n - 1];
        let before = package_targets(p, (n - 1) as nat);
        if listed_kind(t) == "custom-build"@ {
            before
        } else {
            before.push(
                ListedTarget { name: t.name@, kind: listed_kind(t), package: p.name@ },
            )
        }
    }
}

/// The targets of the first `n` workspace members, without build scripts.
pub open spec fn member_targets(m: Metadata, n: nat) -> Seq<ListedTarget>
    decreases n,
{
    if n == 0 {
        Seq::empty()
    } else {
        let before = member_targets(m, (n - 1) as nat);
        match find_package(m.packages@, m.workspace_members@[n - 1]@) {
            Some(k) => before + package_targets(
                m.packages@[k],
                m.packages@[k].targets@.len(),
            ),
            None => before,
        }
    }
}

/// Whether the target `a` stands no later than the target `b`: by kind, then by
/// name, then by place.
pub open spec fn listed_no_later(targets: Seq<ListedTarget>, a: usize, b: usize) -> bool {
    let x = targets[a as int];
    let y = targets[b as int];
    if x.kind != y.kind {
        text::text_le(x.kind, y.kind)
    } else if x.name != y.name {
        text::text_le(x.name, y.name)
    } else {
        a <= b
    }
}

/// The targets by kind and name; those of one kind and name keep their order.
pub open spec fn listed_in_order(targets: Seq<ListedTarget>) -> Seq<ListedTarget> {
    order::picks(targets.len(), |i: int| true).sort_by(
        |a: usize, b: usize| listed_no_later(targets, a, b),
    ).map_values(|i: usize| targets[i as int])
}

/// The list without elements that equal the one before them.
pub open spec fn without_repeats(targets: Seq<ListedTarget>) -> Seq<ListedTarget>
    decreases targets.len(),
{
    if targets.len() == 0 {
        Seq::empty()
    } else {
        let before = without_repeats(targets.drop_last());
        if targets.len() > 1 && targets.last() == targets[targets.len() - 2] {
            before
        } else {
            before.push(targets.last())
        }
    }
}

/// What the targets stand for.
pub open spec fn listed(targets: Seq<WorkspaceTarget>) -> Seq<ListedTarget> {
    targets.map_values(|t: WorkspaceTarget| t@)
}

/// The order of targets by kind and name compares any two, tells them apart, and
/// is transitive.
proof fn lemma_listed(targets: Seq<ListedTarget>, a: usize, b: usize, c: usize)
    ensures
        listed_no_later(targets, a, b) || listed_no_later(targets, b, a),
        listed_no_later(targets, a, b) && listed_no_later(targets, b, a) ==> a == b,
        listed_no_later(targets, a, b) && listed_no_later(targets, b, c) ==> listed_no_later(
            targets,
            a,
            c,
        ),
{
    let x = targets[a as int];
    let y = targets[b as int];
    let z = targets[c as int];
    text::text_order(x.kind, y.kind, z.kind);
    text::text_order(y.kind, z.kind, x.kind);
    text::text_order(x.name, y.name, z.name);
    text::text_order(y.name, z.name, x.name);
}

/// The order of targets by kind and name is total.
pub proof fn lemma_total(targets: Seq<ListedTarget>)
    ensures
        vstd::relations::total_ordering(|a: usize, b: usize| listed_no_later(targets, a, b)),
{
    let le = |a: usize, b: usize| listed_no_later(targets, a, b);
    assert forall|a: usize, b: usize| #[trigger] le(a, b) || #[trigger] le(b, a) by {
        lemma_listed(targets, a, b, b);
    }
    assert forall|a: usize, b: usize| #[trigger] le(a, b) && #[trigger] le(b, a) implies a == b by {
        lemma_listed(targets, a, b, b);
    }
    assert forall|a: usize, b: usize, c: usize| #[trigger] le(a, b) && #[trigger] le(b, c)
        implies le(a, c) by {
        lemma_listed(targets, a, b, c);
    }
}

/// The order of targets by kind and name.
struct ByKind<'a> {
    targets: &'a Vec<WorkspaceTarget>,
}

impl<'a> Ranking for ByKind<'a> {
    closed spec fn covers(&self, i: usize) -> bool {
        i < self.targets@.len()
    }

    closed spec fn not_after(&self, a: usize, b: usize) -> bool {
        listed_no_later(listed(self.targets@), a, b)
    }

    proof fn is_total(&self) {
        lemma_total(listed(self.targets@));
        assert((|a: usize, b: usize| self.not_after(a, b)) =~= (|a: usize, b: usize|
            listed_no_later(listed(self.targets@), a, b)));
    }

    fn ranks(&self, a: usize, b: usize) -> (r: bool) {
        let x = &self.targets[a];
        let y = &self.targets[b];
        if x.kind != y.kind {
            text_not_after(&chars_of(x.kind.as_str()), &chars_of(y.kind.as_str()))
        } else if x.name != y.name {
            text_not_after(&chars_of(x.name.as_str()), &chars_of(y.name.as_str()))
        } else {
            a <= b
        }
    }
}

/// Adds the targets of `package`. Cargo's internal "custom-build" units (build
/// scripts) are skipped. They're not useful as `--prune-target` arguments —
/// they're bookkeeping that exists for any crate with a build.rs.
fn add_targets(package: &Package, out: &mut Vec<WorkspaceTarget>)
    ensures
        listed(final(out)@) == listed(old(out)@) + package_targets(
            *package,
            package.targets@.len(),
        ),
{
    let ghost start = listed(out@);
    let mut t: usize = 0;
    assert(start + package_targets(*package, 0) =~= start);
    while t < package.targets.len()
        invariant
            t <= package.targets.len(),
            listed(out@) == start + package_targets(*package, t as nat),
        decreases package.targets.len() - t,
    {
        let target = &package.targets[t];
        let kind = if target.kind.len() > 0 {
            target.kind[0].clone()
        } else {
            "unknown".to_owned()
        };
        let ghost before = out@;
        if !same_text(kind.as_str(), "custom-build") {
            out.push(
                WorkspaceTarget {
                    name: target.name.clone(),
                    kind,
                    package: package.name.clone(),
                },
            );
            assert(listed(out@) =~= listed(before).push(out@.last()@));
        }
        assert(listed(out@) =~= start + package_targets(*package, (t + 1) as nat));
        t = t + 1;
    }
}

/// All workspace member targets, by kind and name. Used by `--list-targets`.
pub fn workspace_targets(metadata: &Metadata) -> (r: Vec<WorkspaceTarget>)
    ensures
        listed(r@) == listed_in_order(
            member_targets(*metadata, metadata.workspace_members@.len()),
        ),
{
    let mut all: Vec<WorkspaceTarget> = Vec::new();
    let mut j: usize = 0;
    assert(listed(all@) =~= member_targets(*metadata, 0));
    while j < metadata.workspace_members.len()
        invariant
            j <= metadata.workspace_members.len(),
            listed(all@) == member_targets(*metadata, j as nat),
        decreases metadata.workspace_members.len() - j,
    {
        if let Some(at) = package_with_id(&metadata.packages, &metadata.workspace_members[j]) {
            add_targets(&metadata.packages[at], &mut all);
        }
        j = j + 1;
    }
    in_order(&all)
}

/// The targets by kind and name; those of one kind and name keep their order.
fn in_order(all: &Vec<WorkspaceTarget>) -> (r: Vec<WorkspaceTarget>)
    ensures
        listed(r@) == listed_in_order(listed(all@)),
{
    let ghost targets = listed(all@);
    let ghost every = |i: int| true;
    let ghost at = |i: usize| targets[i as int];
    let mut places: Vec<usize> = Vec::new();
    let mut i: usize = 0;
    while i < all.len()
        invariant
            i <= all.len(),
            every == (|i: int| true),
            places@ == order::picks(i as nat, every),
        decreases all.len() - i,
    {
        places.push(i);
        i = i + 1;
    }
    let by_kind = ByKind { targets: all };
    proof {
        order::lemma_picks(all@.len(), every);
    }
    let sorted = rank(&places, &by_kind);
    proof {
        let f = |a: usize, b: usize| by_kind.not_after(a, b);
        let g = |a: usize, b: usize| listed_no_later(targets, a, b);
        assert(f =~= g);
        by_kind.is_total();
        order::lemma_sorted(places@, g);
        assert forall|k: int| 0 <= k < sorted@.len() implies #[trigger] sorted@[k] < all@.len() by {
            assert(sorted@.contains(sorted@[k]));
        }
    }
    let mut out: Vec<WorkspaceTarget> = Vec::new();
    let mut k: usize = 0;
    assert(listed(out@) =~= sorted@.take(0).map_values(at));
    while k < sorted.len()
        invariant
            k <= sorted.len(),
            targets == listed(all@),
            at == (|i: usize| targets[i as int]),
            forall|k: int| 0 <= k < sorted@.len() ==> #[trigger] sorted@[k] < all@.len(),
            listed(out@) == sorted@.take(k as int).map_values(at),
        decreases sorted.len() - k,
    {
        let t = &all[sorted[k]];
        let ghost before = out@;
        out.push(
            WorkspaceTarget {
                name: t.name.clone(),
                kind: t.kind.clone(),
                package: t.package.clone(),
            },
        );
        proof {
            assert(listed(out@) =~= listed(before).push(out@.last()@));
            assert(sorted@.take(k + 1).map_values(at) =~= sorted@.take(k as int).map_values(
                at,
            ).push(at(sorted@[k as int])));
        }
        k = k + 1;
    }
    assert(sorted@.take(sorted@.len() as int) =~= sorted@);
    out
}

/// The list without elements that equal the one before them.
pub fn dedup_targets(targets: Vec<WorkspaceTarget>) -> (r: Vec<WorkspaceTarget>)
    ensures
        listed(r@) == without_repeats(listed(targets@)),
{
    let ghost all = listed(targets@);
    let mut out: Vec<WorkspaceTarget> = Vec::new();
    let mut i: usize = 0;
    assert(listed(out@) =~= without_repeats(all.take(0)));
    while i < targets.len()
        invariant
            i <= targets.len(),
            all == listed(targets@),
            listed(out@) == without_repeats(all.take(i as int)),
        decreases targets.len() - i,
    {
        let t = &targets[i];
        let repeated = i > 0 && t.name == targets[i - 1].name && t.kind == targets[i - 1].kind
            && t.package == targets[i - 1].package;
        let ghost before = out@;
        if !repeated {
            out.push(
                WorkspaceTarget {
                    name: t.name.clone(),
                    kind: t.kind.clone(),
                    package: t.package.clone(),
                },
            );
            assert(listed(out@) =~= listed(before).push(out@.last()@));
        }
        proof {
            let next = all.take(i + 1);
            assert(next.drop_last() =~= all.take(i as int));
            assert(next.last() == t@);
            if i > 0 {
                assert(next[next.len() - 2] == targets@[i - 1]@);
            }
            assert(listed(out@) =~= without_repeats(next));
        }
        i = i + 1;
    }
    assert(all.take(all.len() as int) =~= all);
    out
}

} // verus!
