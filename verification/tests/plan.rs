use cargo_grime_cremator::inventory::{FingerprintDir, UnitFile};
use cargo_grime_cremator::listing::{CacheDir, Entry, EntryKind, ProfileListing, SessionEntry};
use cargo_grime_cremator::live_set::LiveSet;
use cargo_grime_cremator::plan::{
    kept_caches, prune_profile_targets, record, sweep_profile, Removal,
};
use cargo_grime_cremator::sweep::{
    covers, sweep_target_dir, visits, wiped_profiles, ProfileDir, SweepOptions, SweepReport,
};
use cargo_grime_cremator::target_dir::TargetEntry;
use cargo_grime_cremator::timestamp::Timestamp;

const NOW: u64 = 1_800_000_000;

fn now() -> Timestamp {
    Timestamp::after_epoch(NOW, 0)
}

fn unit(name: &str, target: u64, age_secs: u64) -> FingerprintDir {
    FingerprintDir {
        name: name.to_string(),
        is_unicode: true,
        is_dir: true,
        invoked: Some(Timestamp::after_epoch(NOW - age_secs, 0)),
        files: vec![UnitFile::File {
            name: "lib-x.json".to_string(),
            contents: Some(format!(r#"{{"target":{},"profile":7}}"#, target)),
        }],
    }
}

fn file(name: &str) -> Entry {
    Entry {
        name: name.to_string(),
        is_unicode: true,
        kind: EntryKind::File,
    }
}

fn dir(name: &str) -> Entry {
    Entry {
        name: name.to_string(),
        is_unicode: true,
        kind: EntryKind::Dir,
    }
}

fn session(name: &str, age_secs: u64, has_lock: bool) -> SessionEntry {
    SessionEntry {
        name: name.to_string(),
        is_dir: true,
        modified: Timestamp::after_epoch(NOW - age_secs, 0),
        has_lock,
    }
}

fn cache(name: &str, sessions: Vec<SessionEntry>) -> CacheDir {
    CacheDir {
        name: name.to_string(),
        is_dir: true,
        sessions,
    }
}

fn live() -> LiveSet {
    LiveSet::from_names_with_ws(
        &["cargo-gc-fixture", "fixture", "serde", "cfg-if"],
        &["cargo-gc-fixture", "fixture"],
    )
}

/// What a build of the fixture leaves.
fn build() -> ProfileListing {
    ProfileListing {
        fingerprints: vec![
            unit("cargo-gc-fixture-aaaaaaaaaaaaaaaa", 1, 5),
            unit("serde-1111111111111111", 2, 5),
            unit("cfg-if-2222222222222222", 3, 5),
        ],
        deps: vec![
            file("fixture-aaaaaaaaaaaaaaaa"),
            file("fixture-aaaaaaaaaaaaaaaa.d"),
            file("libserde-1111111111111111.rlib"),
            file("libserde-1111111111111111.rmeta"),
            file("libcfg_if-2222222222222222.rlib"),
            file("no_hash"),
        ],
        build: vec![dir("serde-1111111111111111"), dir("README")],
        incremental: vec![
            cache("fixture-2x3y", vec![session("s-new", 5, true)]),
            cache("build_script_build-9", vec![session("s-new", 5, false)]),
        ],
        top_level: vec![
            dir(".fingerprint"),
            dir("deps"),
            file(".cargo-lock"),
            file("fixture"),
            file("fixture.d"),
        ],
        examples: vec![],
    }
}

fn opts() -> SweepOptions {
    SweepOptions {
        keep_sessions: 1,
        ..SweepOptions::default()
    }
}

/// What is left of a profile dir.
fn after(p: ProfileListing, removals: &[Removal]) -> ProfileListing {
    fn rest<T>(list: Vec<T>, gone: impl Fn(usize) -> bool) -> Vec<T> {
        list.into_iter()
            .enumerate()
            .filter(|(i, _)| !gone(*i))
            .map(|(_, x)| x)
            .collect()
    }
    let has = |r: Removal| removals.contains(&r);
    ProfileListing {
        fingerprints: rest(p.fingerprints, |i| has(Removal::Fingerprint(i))),
        deps: rest(p.deps, |i| has(Removal::DepsFile(i))),
        build: rest(p.build, |i| has(Removal::BuildDir(i))),
        incremental: p
            .incremental
            .into_iter()
            .enumerate()
            .filter(|(i, _)| !has(Removal::Cache(*i)) && !has(Removal::ZombieCache(*i)))
            .map(|(i, c)| CacheDir {
                name: c.name,
                is_dir: c.is_dir,
                sessions: rest(c.sessions, |j| {
                    has(Removal::Session {
                        cache: i,
                        session: j,
                    })
                }),
            })
            .collect(),
        top_level: rest(p.top_level, |i| has(Removal::TopLevelFile(i))),
        examples: rest(p.examples, |i| has(Removal::ExampleFile(i))),
    }
}

#[test]
fn fresh_build_is_left_alone() {
    assert_eq!(sweep_profile(&build(), &live(), &opts(), now()), vec![]);
    // Nor does an hour's max age touch it.
    let mut o = opts();
    o.max_age_cutoff = Some(Timestamp::after_epoch(NOW - 3600, 0));
    assert_eq!(sweep_profile(&build(), &live(), &o, now()), vec![]);
}

#[test]
fn orphans_go_and_nothing_else() {
    let mut p = build();
    p.deps.push(file("liborphan-ffffffffffffffff.rlib"));
    p.deps.push(file("orphan-ffffffffffffffff.d"));
    p.build.push(dir("orphan-ffffffffffffffff"));
    let removals = sweep_profile(&p, &live(), &opts(), now());
    assert_eq!(
        removals,
        vec![
            Removal::DepsFile(6),
            Removal::DepsFile(7),
            Removal::BuildDir(2)
        ]
    );
    let rest = after(p, &removals);
    assert_eq!(sweep_profile(&rest, &live(), &opts(), now()), vec![]);
}

#[test]
fn removed_crate_goes_everywhere() {
    let mut p = build();
    p.fingerprints.push(unit("old-bin-bbbbbbbbbbbbbbbb", 9, 5));
    p.deps.push(file("old_bin-bbbbbbbbbbbbbbbb"));
    p.incremental.push(cache("old_bin-77", vec![]));
    p.incremental.push(cache("nodash", vec![]));
    p.top_level.push(file("old-bin"));
    p.top_level.push(file("libold_bin.rlib"));
    p.examples.push(file("old_example"));
    p.examples.push(file("fixture-bbbbbbbbbbbbbbbb.d"));
    let removals = sweep_profile(&p, &live(), &opts(), now());
    assert_eq!(
        removals,
        vec![
            Removal::DepsFile(6),
            Removal::Cache(2),
            Removal::TopLevelFile(5),
            Removal::TopLevelFile(6),
            Removal::ExampleFile(0),
            Removal::Fingerprint(3),
        ]
    );
    let rest = after(p, &removals);
    assert_eq!(sweep_profile(&rest, &live(), &opts(), now()), vec![]);
}

#[test]
fn superseded_dependency_takes_the_workspace() {
    let mut p = build();
    p.fingerprints.push(unit("serde-ffffffffffffffff", 2, 86_400));
    p.deps.push(file("libserde-ffffffffffffffff.rlib"));
    let removals = sweep_profile(&p, &live(), &opts(), now());
    assert_eq!(
        removals,
        vec![
            Removal::ZombieCache(0),
            Removal::DepsFile(0),
            Removal::DepsFile(1),
            Removal::DepsFile(2),
            Removal::DepsFile(3),
            Removal::DepsFile(6),
            Removal::BuildDir(0),
            Removal::Fingerprint(1),
            Removal::Fingerprint(3),
            Removal::Fingerprint(0),
        ]
    );
    let rest = after(p, &removals);
    assert_eq!(sweep_profile(&rest, &live(), &opts(), now()), vec![]);
}

#[test]
fn dry_run_shows_what_goes() {
    let mut dry = opts();
    dry.dry_run = true;
    // With a zombie cache that has an old session, and with an orphan.
    let mut zombie = build();
    zombie.fingerprints.push(unit("serde-ffffffffffffffff", 2, 86_400));
    zombie.incremental[0].sessions.push(session("s-old", 50, true));
    let mut orphan = build();
    orphan.deps.push(file("liborphan-ffffffffffffffff.rlib"));
    for p in [zombie, orphan, build()] {
        let shown = sweep_profile(&p, &live(), &dry, now());
        assert_eq!(shown, sweep_profile(&p, &live(), &opts(), now()));
        assert!(!shown.contains(&Removal::Session {
            cache: 0,
            session: 1
        }));
    }
}

#[test]
fn old_sessions_go() {
    let mut p = build();
    p.incremental[0].sessions = vec![
        session("s-b", 20, true),
        session("s-a", 10, true),
        session("x-c", 1, true),
        session("s-d", 10, false),
        session("s-e", 30, false),
    ];
    let mut o = opts();
    let gone = |s: usize| Removal::Session {
        cache: 0,
        session: s,
    };
    let lock = |s: usize| Removal::SessionLock {
        cache: 0,
        session: s,
    };
    assert_eq!(
        sweep_profile(&p, &live(), &o, now()),
        vec![gone(3), gone(0), lock(0), gone(4)]
    );
    o.keep_sessions = 3;
    assert_eq!(sweep_profile(&p, &live(), &o, now()), vec![gone(4)]);
    o.keep_sessions = 9;
    assert_eq!(sweep_profile(&p, &live(), &o, now()), vec![]);
    o.keep_sessions = 0;
    assert_eq!(
        sweep_profile(&p, &live(), &o, now()),
        vec![
            gone(1),
            lock(1),
            gone(3),
            gone(0),
            lock(0),
            gone(4),
            Removal::Session {
                cache: 1,
                session: 0
            }
        ]
    );
}

#[test]
fn pruned_target_goes_and_dependencies_stay() {
    let mut o = opts();
    o.prune_targets = vec!["fixture".to_string()];
    let removals = sweep_profile(&build(), &live(), &o, now());
    // The unit is named for the package, the artifacts for the target.
    assert_eq!(
        removals,
        vec![
            Removal::DepsFile(0),
            Removal::DepsFile(1),
            Removal::Cache(0),
            Removal::TopLevelFile(3),
            Removal::TopLevelFile(4)
        ]
    );
    let rest = after(build(), &removals);
    assert_eq!(sweep_profile(&rest, &live(), &o, now()), vec![]);
    o.prune_targets = vec!["cargo_gc_fixture".to_string(), "fixture".to_string()];
    let removals = sweep_profile(&build(), &live(), &o, now());
    assert_eq!(
        removals,
        vec![
            Removal::DepsFile(0),
            Removal::DepsFile(1),
            Removal::Cache(0),
            Removal::TopLevelFile(3),
            Removal::TopLevelFile(4),
            Removal::Fingerprint(0),
        ]
    );
    let rest = after(build(), &removals);
    assert_eq!(sweep_profile(&rest, &live(), &o, now()), vec![]);
}

/// A profile with a live example target.
fn with_example() -> (ProfileListing, LiveSet) {
    let mut p = build();
    p.fingerprints.push(unit("model-viewer-cccccccccccccccc", 9, 5));
    p.deps.push(file("libmodel_viewer-cccccccccccccccc.rlib"));
    p.build.push(dir("model-viewer-cccccccccccccccc"));
    p.incremental.push(cache("model_viewer-1", vec![session("s-new", 5, false)]));
    p.top_level.push(file("model-viewer"));
    p.top_level.push(file("libmodel_viewer.rlib"));
    p.examples.push(file("model-viewer"));
    p.examples.push(file("model_viewer-cccccccccccccccc.d"));
    let live = LiveSet::from_names_with_ws(
        &["cargo-gc-fixture", "fixture", "serde", "cfg-if", "model-viewer"],
        &["cargo-gc-fixture", "fixture", "model-viewer"],
    );
    (p, live)
}

#[test]
fn either_form_prunes_files_caches_and_examples() {
    for form in ["model-viewer", "model_viewer"] {
        let (p, live) = with_example();
        assert_eq!(sweep_profile(&p, &live, &opts(), now()), vec![]);
        let mut o = opts();
        o.prune_targets = vec![form.to_string()];
        let gone = vec![
            Removal::DepsFile(6),
            Removal::BuildDir(2),
            Removal::Cache(2),
            Removal::TopLevelFile(5),
            Removal::TopLevelFile(6),
            Removal::ExampleFile(0),
            Removal::ExampleFile(1),
            Removal::Fingerprint(3),
        ];
        assert_eq!(sweep_profile(&p, &live, &o, now()), gone);
        assert_eq!(prune_profile_targets(&p, &o), gone);
        let rest = after(p, &gone);
        assert_eq!(sweep_profile(&rest, &live, &o, now()), vec![]);
        assert_eq!(prune_profile_targets(&rest, &o), vec![]);
    }
}

#[test]
fn aged_units_go_with_their_artifacts() {
    let mut p = build();
    p.fingerprints[1] = unit("serde-1111111111111111", 2, 7200);
    let mut o = opts();
    o.max_age_cutoff = Some(Timestamp::after_epoch(NOW - 3600, 0));
    assert_eq!(
        sweep_profile(&p, &live(), &o, now()),
        vec![
            Removal::DepsFile(2),
            Removal::DepsFile(3),
            Removal::BuildDir(0),
            Removal::Fingerprint(1)
        ]
    );
    o.max_age_cutoff = None;
    assert_eq!(sweep_profile(&p, &live(), &o, now()), vec![]);
}

#[test]
fn sweeps_converge() {
    // A bit of everything, swept until nothing is left to do.
    let mut p = build();
    p.fingerprints.push(unit("serde-ffffffffffffffff", 2, 86_400));
    p.fingerprints.push(unit("gone-cccccccccccccccc", 2, 1));
    p.fingerprints.push(unit("cfg-if-dddddddddddddddd", 4, 1));
    p.deps.push(file("libgone-cccccccccccccccc.rlib"));
    p.incremental[1].sessions.push(session("s-old", 50, true));
    p.top_level.push(file("stray.o"));
    let first = sweep_profile(&p, &live(), &opts(), now());
    assert!(!first.is_empty());
    let mut rest = after(p, &first);
    for i in 0..5 {
        let again = sweep_profile(&rest, &live(), &opts(), now());
        assert_eq!(again, vec![], "iteration {}", i);
        rest = after(rest, &again);
        rest.fingerprints.reverse();
        rest.deps.reverse();
    }
}

#[test]
fn removals_are_recorded_by_kind() {
    let mut r = SweepReport::default();
    record(&mut r, &Removal::DepsFile(0), Some(10));
    record(&mut r, &Removal::SessionLock { cache: 0, session: 0 }, Some(1));
    record(&mut r, &Removal::BuildDir(0), Some(100));
    record(&mut r, &Removal::ZombieCache(0), Some(1000));
    record(&mut r, &Removal::TopLevelFile(0), None);
    assert_eq!(
        r,
        SweepReport {
            removed_files: 2,
            removed_dirs: 2 - 1,
            freed_bytes: 111
        }
    );
    assert!(Removal::ExampleFile(3).takes_file() && !Removal::Cache(3).takes_file());
    assert!(Removal::Cache(3).counts() && !Removal::ZombieCache(3).counts());
}

fn profile_dir(name: &str, has_fingerprint: bool, listing: ProfileListing) -> ProfileDir {
    ProfileDir {
        entry: TargetEntry {
            name: name.to_string(),
            is_dir: true,
            has_fingerprint,
        },
        listing,
    }
}

#[test]
fn profiles_are_swept_one_by_one() {
    let orphaned = || {
        let mut p = build();
        p.deps.push(file("liborphan-ffffffffffffffff.rlib"));
        p
    };
    let dirs = vec![
        profile_dir("release", true, orphaned()),
        profile_dir("doc", true, orphaned()),
        profile_dir("x86_64-unknown-linux-gnu", false, orphaned()),
        profile_dir("debug", true, build()),
    ];
    let mut o = opts();
    let sweeps = sweep_target_dir(&dirs, &live(), &o, now());
    assert_eq!(sweeps.len(), 2);
    assert_eq!(sweeps[0].place, 0);
    assert_eq!(sweeps[0].removals, vec![Removal::DepsFile(6)]);
    assert_eq!(sweeps[1].place, 3);
    assert_eq!(sweeps[1].removals, vec![]);
    o.only_profile = Some("debug".to_string());
    let sweeps = sweep_target_dir(&dirs, &live(), &o, now());
    assert_eq!(sweeps.len(), 1);
    assert_eq!(sweeps[0].place, 3);
}

#[test]
fn pruning_reaches_other_profiles() {
    let stale = || {
        let (mut p, _) = with_example();
        p.deps.push(file("liborphan-ffffffffffffffff.rlib"));
        p.top_level.push(file("foo"));
        p
    };
    let dirs = vec![
        profile_dir("release", true, stale()),
        profile_dir("debug", true, build()),
    ];
    let mut o = opts();
    o.only_profile = Some("debug".to_string());
    o.prune_targets = vec!["foo".to_string()];
    let sweeps = sweep_target_dir(&dirs, &live(), &o, now());
    assert_eq!(sweeps.len(), 2);
    // Of the other profile the pruned target goes, and nothing else.
    assert_eq!(sweeps[0].place, 0);
    assert_eq!(sweeps[0].removals, vec![Removal::TopLevelFile(7)]);
    assert_eq!(sweeps[1].removals, vec![]);
    assert!(!covers(&dirs[0].entry, &o) && covers(&dirs[1].entry, &o));
    o.prune_targets = vec![];
    assert!(!visits(&dirs[0].entry, &o) && visits(&dirs[1].entry, &o));
}

#[test]
fn profiles_are_wiped_once_and_not_swept() {
    let mut o = opts();
    o.prune_profiles = ["release", "gone", "release", "bench"]
        .iter()
        .map(|s| s.to_string())
        .collect();
    assert_eq!(
        wiped_profiles(&o, &vec![true, false, true, true]),
        vec![0, 3]
    );
    assert_eq!(
        wiped_profiles(&o, &vec![false, false, false, false]),
        Vec::<usize>::new()
    );
    let dirs = vec![
        profile_dir("release", true, build()),
        profile_dir("debug", true, build()),
    ];
    for only in [None, Some("release".to_string()), Some("debug".to_string())] {
        for dry_run in [false, true] {
            o.only_profile = only.clone();
            o.dry_run = dry_run;
            assert_eq!(wiped_profiles(&o, &vec![true, false, true, false]), vec![0]);
            assert!(!visits(&dirs[0].entry, &o));
            for sweep in sweep_target_dir(&dirs, &live(), &o, now()) {
                assert_eq!(sweep.place, 1);
            }
        }
    }
}

#[test]
fn spelling_of_a_wiped_profile_does_not_matter() {
    let mut o = opts();
    let dirs = vec![profile_dir("release", true, build())];
    for spelling in [
        "release", "release/", "./release", "./release/", ".//release//", "././release/.",
    ] {
        o.prune_profiles = vec![spelling.to_string()];
        assert!(!visits(&dirs[0].entry, &o), "{}", spelling);
        assert!(sweep_target_dir(&dirs, &live(), &o, now()).is_empty());
        o.prune_profiles.push("release".to_string());
        assert_eq!(wiped_profiles(&o, &vec![true, true]), vec![0]);
    }
    for other in ["/release", "releas", "../release", "release.", "", "/", "./"] {
        o.prune_profiles = vec![other.to_string(), "release2".to_string()];
        assert!(visits(&dirs[0].entry, &o), "{}", other);
        assert_eq!(wiped_profiles(&o, &vec![true, true]), vec![0, 1]);
    }
}

#[test]
fn only_kept_caches_are_looked_into() {
    let mut p = build();
    p.incremental.push(cache("gone-1", vec![session("s-a", 1, true), session("s-b", 2, true)]));
    p.incremental[0].sessions.push(session("s-old", 50, true));
    assert_eq!(kept_caches(&p, &live(), &opts(), now()), vec![0, 1]);
    let removals = sweep_profile(&p, &live(), &opts(), now());
    p.incremental[2].sessions.clear();
    assert_eq!(sweep_profile(&p, &live(), &opts(), now()), removals);
    assert!(removals.contains(&Removal::Cache(2)));
    // What is to be pruned goes as a whole too.
    let mut o = opts();
    o.prune_targets = vec!["fixture".to_string()];
    assert_eq!(kept_caches(&p, &live(), &o, now()), vec![1]);
    // So does what was compiled against a superseded dependency.
    p.fingerprints.push(unit("serde-ffffffffffffffff", 2, 86_400));
    assert_eq!(kept_caches(&p, &live(), &opts(), now()), vec![1]);
}

#[test]
fn planted_orphans_go_alone() {
    let mut p = build();
    p.deps.push(file("liborphan-ffffffffffffffff.rlib"));
    p.build.push(dir("orphan-ffffffffffffffff"));
    p.deps.push(dir("orphan-ffffffffffffffff.dSYM"));
    let removals = sweep_profile(&p, &live(), &opts(), now());
    assert_eq!(removals, vec![Removal::DepsFile(6), Removal::BuildDir(2)]);
}
