use cargo_grime_cremator::inventory::{FingerprintDir, Inventory, UnitFile};
use cargo_grime_cremator::listing::{CacheDir, SessionEntry};
use cargo_grime_cremator::live_set::LiveSet;
use cargo_grime_cremator::names::NameSet;
use cargo_grime_cremator::sweep::{
    dir_size, file_stem_matches, human, name_matches_live, SweepOptions, SweepReport,
};
use cargo_grime_cremator::timestamp::Timestamp;
use cargo_grime_cremator::units::{
    dedup_stale_units, explain_dedup, extract_json_u64, is_unit_record, prune_set,
    promote_pruned_targets_to_stale, read_unit_key, Note,
};

fn names(list: &[&str]) -> NameSet {
    let mut set = NameSet::new();
    for name in list {
        set.insert(name.to_string());
    }
    set
}

fn inv_with(hashes: &[&str]) -> Inventory {
    Inventory {
        live_hashes: names(hashes),
        stale_fingerprints: Vec::new(),
    }
}

#[test]
fn matches_workspace_bin_no_hash() {
    let inv = inv_with(&[]);
    let live = LiveSet::from_names(&["myapp"]);
    assert!(name_matches_live("myapp", &inv, &live));
    assert!(name_matches_live("myapp.d", &inv, &live));
}

#[test]
fn matches_workspace_bin_when_target_name_differs_from_package_name() {
    // Package name is `cargo-gc-fixture` but the bin target is `fixture`. The
    // top-level executable on disk is `fixture`, and it must be kept.
    let inv = inv_with(&[]);
    let live = LiveSet::from_names(&["cargo-gc-fixture", "fixture"]);
    assert!(name_matches_live("fixture", &inv, &live));
    assert!(name_matches_live("fixture.d", &inv, &live));
}

#[test]
fn matches_workspace_lib_with_lib_prefix() {
    let inv = inv_with(&[]);
    let live = LiveSet::from_names(&["myapp"]);
    assert!(name_matches_live("libmyapp.rlib", &inv, &live));
    assert!(name_matches_live("libmyapp.d", &inv, &live));
}

#[test]
fn matches_hashed_dep_via_hash() {
    let inv = inv_with(&["9b9bb928814887d2"]);
    let live = LiveSet::from_names(&[]);
    assert!(name_matches_live(
        "libcfg_if-9b9bb928814887d2.rlib",
        &inv,
        &live
    ));
    assert!(name_matches_live("cfg_if-9b9bb928814887d2.d", &inv, &live));
}

#[test]
fn rejects_unknown_top_level_file() {
    let inv = inv_with(&[]);
    let live = LiveSet::from_names(&["myapp"]);
    assert!(!name_matches_live("oldname", &inv, &live));
    assert!(!name_matches_live("oldname.d", &inv, &live));
    assert!(!name_matches_live("liboldname.rlib", &inv, &live));
}

#[test]
fn rejects_hashed_dep_unknown_hash() {
    let inv = inv_with(&["1234567890abcdef"]);
    let live = LiveSet::from_names(&[]);
    assert!(!name_matches_live(
        "libfoo-deadbeefdeadbeef.rlib",
        &inv,
        &live
    ));
}

#[test]
fn hashed_name_of_a_live_crate_is_live() {
    let inv = inv_with(&[]);
    let live = LiveSet::from_names(&["my-app"]);
    assert!(name_matches_live("my_app-deadbeefdeadbeef.d", &inv, &live));
    assert!(name_matches_live("libmy_app-deadbeefdeadbeef.rlib", &inv, &live));
    assert!(!name_matches_live("lib", &inv, &live));
    assert!(!name_matches_live("", &inv, &live));
}

#[test]
fn report_merge_accumulates() {
    let mut a = SweepReport {
        removed_files: 1,
        removed_dirs: 2,
        freed_bytes: 100,
    };
    let b = SweepReport {
        removed_files: 3,
        removed_dirs: 4,
        freed_bytes: 50,
    };
    a.merge(&b);
    assert_eq!(a.removed_files, 4);
    assert_eq!(a.removed_dirs, 6);
    assert_eq!(a.freed_bytes, 150);
}

#[test]
fn reports_add_up() {
    let r = |f: usize, d: usize, b: u64| SweepReport {
        removed_files: f,
        removed_dirs: d,
        freed_bytes: b,
    };
    let mut ab = r(1, 2, 3);
    ab.merge(&r(10, 20, 30));
    let mut ba = r(10, 20, 30);
    ba.merge(&r(1, 2, 3));
    assert_eq!(ab, ba);
    assert_eq!(ab.total_removed(), 33);
    let mut zero = SweepReport::default();
    zero.merge(&ab);
    assert_eq!(zero, ab);
    zero.count_file(7);
    zero.count_dir(100);
    assert_eq!(zero, r(12, 23, 140));
}

#[test]
fn human_units() {
    assert_eq!(human(0), "0 B");
    assert_eq!(human(512), "512 B");
    assert_eq!(human(2048), "2.0 K");
    assert_eq!(human(5 * 1024 * 1024), "5.0 M");
    assert_eq!(human(3 * 1024 * 1024 * 1024), "3.0 G");
}

/// The same text by way of floating-point numbers.
fn human_by_floats(bytes: u64) -> String {
    let units = ["B", "K", "M", "G", "T"];
    let mut v = bytes as f64;
    let mut idx = 0;
    while v >= 1024.0 && idx < units.len() - 1 {
        v /= 1024.0;
        idx += 1;
    }
    if idx == 0 {
        format!("{} {}", bytes, units[idx])
    } else {
        format!("{:.1} {}", v, units[idx])
    }
}

#[test]
fn human_rounds_as_floats_do() {
    let mut samples: Vec<u64> = Vec::new();
    for shift in 0..64 {
        let p = 1_u64 << shift;
        for d in 0..40 {
            samples.push(p.wrapping_add(d));
            samples.push(p.wrapping_sub(d));
            samples.push(p.wrapping_add(p / 20).wrapping_add(d));
            samples.push(p.wrapping_add(p / 2).wrapping_sub(d));
        }
    }
    let mut x: u64 = 0x9e37_79b9_7f4a_7c15;
    for i in 0..200_000_u32 {
        x ^= x << 13;
        x ^= x >> 7;
        x ^= x << 17;
        samples.push(x >> (i % 64));
    }
    for n in samples {
        assert_eq!(human(n), human_by_floats(n), "{}", n);
    }
    assert_eq!(human(u64::MAX), "16777216.0 T");
    assert_eq!(human(1023), "1023 B");
    assert_eq!(human(1024), "1.0 K");
    assert_eq!(human(1024 * 1024 - 1), "1024.0 K");
    assert_eq!(human(1280), "1.2 K");
    assert_eq!(human(1408), "1.4 K");
    assert_eq!(human(1536 * 1024), "1.5 M");
}

#[test]
fn dir_size_is_the_sum() {
    assert_eq!(dir_size(&vec![]), Some(0));
    assert_eq!(dir_size(&vec![1, 2, 3]), Some(6));
    assert_eq!(dir_size(&vec![u64::MAX, 0]), Some(u64::MAX));
    assert_eq!(dir_size(&vec![u64::MAX, 1]), None);
}

#[test]
fn file_stem_matches_handles_lib_prefix_and_hash_suffix() {
    let names = names(&["model_viewer"]);
    // bare bin
    assert!(file_stem_matches("model_viewer", &names));
    assert!(file_stem_matches("model_viewer.d", &names));
    // workspace lib
    assert!(file_stem_matches("libmodel_viewer.rlib", &names));
    // hashed deps copy
    assert!(file_stem_matches(
        "libmodel_viewer-1234567890abcdef.rlib",
        &names
    ));
    assert!(file_stem_matches("model_viewer-1234567890abcdef.d", &names));
    // unrelated
    assert!(!file_stem_matches("otherapp", &names));
    assert!(!file_stem_matches("libserde-deadbeefdeadbeef.rlib", &names));
}

#[test]
fn file_stem_matches_accepts_either_form() {
    let names = names(&["model-viewer", "model_viewer"]);
    assert!(file_stem_matches("model-viewer", &names));
    assert!(file_stem_matches("model_viewer", &names));
}

#[test]
fn default_options_do_nothing_special() {
    let o = SweepOptions::default();
    assert!(!o.dry_run && !o.verbose && o.keep_sessions == 0);
    assert!(o.only_profile.is_none() && o.max_age_cutoff.is_none());
    assert!(o.prune_profiles.is_empty() && o.prune_targets.is_empty());
}

const NOW: u64 = 1_800_000_000;

fn now() -> Timestamp {
    Timestamp::after_epoch(NOW, 0)
}

/// A fingerprint dir with a JSON file containing the given target and profile
/// hashes, and invoked `age_secs` ago.
fn make_fp_dir_with_unit(
    name: &str,
    target: u64,
    profile_hash: u64,
    age_secs: u64,
) -> FingerprintDir {
    // The crate name is everything before the last -<hash>.
    let crate_name = name.rsplit_once('-').map(|x| x.0).unwrap_or(name);
    let json = format!(
        r#"{{"rustc":0,"features":"[]","declared_features":"[]","target":{},"profile":{},"path":0,"deps":[],"local":[],"rustflags":[],"config":0,"compile_kind":0}}"#,
        target, profile_hash
    );
    FingerprintDir {
        name: name.to_string(),
        is_unicode: true,
        is_dir: true,
        invoked: Some(Timestamp::after_epoch(NOW - age_secs, 0)),
        files: vec![
            UnitFile::File {
                name: "invoked.timestamp".to_string(),
                contents: None,
            },
            UnitFile::File {
                name: format!("lib-{}.json", crate_name),
                contents: Some(json),
            },
        ],
    }
}

#[test]
fn dedup_same_unit_keeps_only_newest() {
    // Two fingerprints for "serde" with SAME (target, profile).
    let dirs = vec![
        make_fp_dir_with_unit("serde-1111111111111111", 300, 400, 86_400),
        make_fp_dir_with_unit("serde-2222222222222222", 300, 400, 0),
    ];
    // No workspace members → pure dep dedup, no zombie purge.
    // But ALL dep entries in the group get nuked (not just the older one).
    let live = LiveSet::from_names(&["serde"]);
    let mut inv = Inventory::build(&dirs, &live, None, now());
    assert_eq!(inv.live_hashes.len(), 2);

    dedup_stale_units(&dirs, &vec![], &mut inv, &live);

    // Both serde hashes removed — dep with duplicates gets fully nuked.
    assert!(!inv.live_hashes.contains("2222222222222222"));
    assert!(!inv.live_hashes.contains("1111111111111111"));
    assert_eq!(inv.stale_fingerprints.len(), 2);
}

#[test]
fn dep_dedup_purges_workspace_zombies() {
    let dirs = vec![
        // Workspace member "xp5" — single fingerprint, should be a zombie.
        make_fp_dir_with_unit("xp5-aaaaaaaaaaaaaaaa", 100, 200, 0),
        // Dependency "serde" — two fingerprints for same unit → dedup.
        make_fp_dir_with_unit("serde-1111111111111111", 300, 400, 86_400),
        make_fp_dir_with_unit("serde-2222222222222222", 300, 400, 0),
    ];
    let live = LiveSet::from_names_with_ws(&["xp5", "serde"], &["xp5"]);
    let mut inv = Inventory::build(&dirs, &live, None, now());
    assert_eq!(inv.live_hashes.len(), 3);

    dedup_stale_units(&dirs, &vec![], &mut inv, &live);

    // serde: ALL entries nuked (dep with duplicates).
    assert!(!inv.live_hashes.contains("2222222222222222"));
    assert!(!inv.live_hashes.contains("1111111111111111"));
    // xp5: purged as zombie because a dep was deduped.
    assert!(!inv.live_hashes.contains("aaaaaaaaaaaaaaaa"));
    // 2 stale serde + 1 zombie xp5 = 3 stale fingerprints.
    assert_eq!(inv.stale_fingerprints.len(), 3);
}

#[test]
fn dedup_different_units_keeps_both() {
    // Two fingerprints for "anyhow" with DIFFERENT target hashes —
    // different compilation units (e.g. lib vs build-script).
    let dirs = vec![
        make_fp_dir_with_unit("anyhow-aaaaaaaaaaaaaaaa", 100, 200, 86_400),
        make_fp_dir_with_unit("anyhow-bbbbbbbbbbbbbbbb", 999, 200, 0),
    ];
    let live = LiveSet::from_names(&["anyhow"]);
    let mut inv = Inventory::build(&dirs, &live, None, now());
    assert_eq!(inv.live_hashes.len(), 2);

    dedup_stale_units(&dirs, &vec![], &mut inv, &live);

    // Both survive — different units.
    assert_eq!(inv.live_hashes.len(), 2);
    assert!(inv.stale_fingerprints.is_empty());
}

#[test]
fn dedup_noop_for_single_hash() {
    let dirs = vec![make_fp_dir_with_unit("xp5-aaaaaaaaaaaaaaaa", 100, 200, 0)];
    let live = LiveSet::from_names(&["xp5"]);
    let mut inv = Inventory::build(&dirs, &live, None, now());
    assert_eq!(inv.live_hashes.len(), 1);

    dedup_stale_units(&dirs, &vec![], &mut inv, &live);

    assert_eq!(inv.live_hashes.len(), 1);
    assert!(inv.stale_fingerprints.is_empty());
}

#[test]
fn newest_dir_of_a_member_stays() {
    let mut dirs = vec![
        make_fp_dir_with_unit("app-1111111111111111", 1, 2, 60),
        make_fp_dir_with_unit("app-2222222222222222", 1, 2, 10),
        make_fp_dir_with_unit("app-3333333333333333", 1, 2, 10),
        make_fp_dir_with_unit("app-4444444444444444", 1, 2, 5),
    ];
    // A dir of unknown age is the oldest.
    dirs[3].invoked = None;
    let live = LiveSet::from_names_with_ws(&["app"], &["app"]);
    let mut inv = Inventory::build(&dirs, &live, None, now());
    let caches = vec![cache("app-x")];
    let notes = explain_dedup(&dirs, Inventory::build(&dirs, &live, None, now()), &live);
    let purged = dedup_stale_units(&dirs, &caches, &mut inv, &live);
    // Of two of the same age the one listed first stays.
    assert!(inv.live_hashes.contains("2222222222222222"));
    assert_eq!(inv.live_hashes.len(), 1);
    assert_eq!(inv.stale_fingerprints, vec![0, 2, 3]);
    assert!(purged.is_empty());
    assert_eq!(
        notes,
        vec![Note::KeptNewest {
            entry: 0,
            demoted: 3
        }]
    );
}

fn cache(name: &str) -> CacheDir {
    CacheDir {
        name: name.to_string(),
        is_dir: true,
        sessions: Vec::<SessionEntry>::new(),
    }
}

#[test]
fn caches_of_the_workspace_go_with_a_dependency() {
    let dirs = vec![
        make_fp_dir_with_unit("my-app-aaaaaaaaaaaaaaaa", 100, 200, 0),
        make_fp_dir_with_unit("serde-1111111111111111", 300, 400, 86_400),
        make_fp_dir_with_unit("serde-2222222222222222", 300, 400, 0),
    ];
    let live = LiveSet::from_names_with_ws(&["my-app", "serde"], &["my-app", "viewer"]);
    let caches = vec![
        cache("my_app-1x2y"),
        cache("serde-9z"),
        cache("my-app-3"),
        cache("viewer-k"),
        cache("viewer"),
    ];
    let notes = explain_dedup(&dirs, Inventory::build(&dirs, &live, None, now()), &live);
    let mut inv = Inventory::build(&dirs, &live, None, now());
    let purged = dedup_stale_units(&dirs, &caches, &mut inv, &live);
    assert_eq!(purged, vec![0, 2, 3]);
    assert_eq!(inv.stale_fingerprints, vec![1, 2, 0]);
    assert_eq!(
        notes,
        vec![
            Note::RemovedAll { entry: 1, count: 2 },
            Note::Zombie(0)
        ]
    );
    // Without a member in use the caches stay.
    let dirs = vec![
        make_fp_dir_with_unit("serde-1111111111111111", 300, 400, 86_400),
        make_fp_dir_with_unit("serde-2222222222222222", 300, 400, 0),
    ];
    let mut inv = Inventory::build(&dirs, &live, None, now());
    assert!(dedup_stale_units(&dirs, &caches, &mut inv, &live).is_empty());
}

#[test]
fn dirs_of_unknown_units_are_left_alone() {
    let mut dirs = vec![
        make_fp_dir_with_unit("serde-1111111111111111", 300, 400, 86_400),
        make_fp_dir_with_unit("serde-2222222222222222", 300, 400, 0),
    ];
    dirs[0].files.clear();
    let live = LiveSet::from_names(&["serde"]);
    let mut inv = Inventory::build(&dirs, &live, None, now());
    dedup_stale_units(&dirs, &vec![], &mut inv, &live);
    assert_eq!(inv.live_hashes.len(), 2);
}

#[test]
fn numbers_are_read_from_flat_json() {
    assert_eq!(extract_json_u64(r#"{"target":300,"profile":400}"#, "target"), Some(300));
    assert_eq!(extract_json_u64(r#"{"target": 300 }"#, "target"), Some(300));
    assert_eq!(
        extract_json_u64("{\"target\":\n\t18446744073709551615}", "target"),
        Some(u64::MAX)
    );
    assert_eq!(extract_json_u64(r#"{"target":18446744073709551616}"#, "target"), None);
    assert_eq!(extract_json_u64(r#"{"target":"300"}"#, "target"), None);
    assert_eq!(extract_json_u64(r#"{"target":-3}"#, "target"), None);
    assert_eq!(extract_json_u64(r#"{"target" :3}"#, "target"), None);
    assert_eq!(extract_json_u64(r#"{"target":"#, "target"), None);
    assert_eq!(extract_json_u64("", "target"), None);
    // The first occurrence decides.
    assert_eq!(extract_json_u64(r#"{"target":x,"target":3}"#, "target"), None);
}

#[test]
fn first_record_names_the_unit() {
    let file = |name: &str, contents: Option<&str>| UnitFile::File {
        name: name.to_string(),
        contents: contents.map(|c| c.to_string()),
    };
    let json = r#"{"target":1,"profile":2}"#;
    assert_eq!(
        read_unit_key(&vec![file("dep-lib-x", None), file("lib-x.json", Some(json))]),
        Some((1, 2))
    );
    assert_eq!(
        read_unit_key(&vec![file("a.json", None), file("lib-x.json", Some(json))]),
        None
    );
    assert_eq!(
        read_unit_key(&vec![file("a.json", Some("{}")), file("lib-x.json", Some(json))]),
        None
    );
    assert_eq!(
        read_unit_key(&vec![UnitFile::Unreadable, file("lib-x.json", Some(json))]),
        None
    );
    assert_eq!(
        read_unit_key(&vec![file("lib-x.json", Some(json)), UnitFile::Unreadable]),
        Some((1, 2))
    );
    assert_eq!(read_unit_key(&vec![]), None);
    assert!(is_unit_record(".json") && is_unit_record("x.json"));
    assert!(!is_unit_record("x.json5") && !is_unit_record("json"));
}

#[test]
fn pruning_takes_either_form_of_a_name() {
    let dirs = vec![
        make_fp_dir_with_unit("model-viewer-1111111111111111", 1, 1, 0),
        make_fp_dir_with_unit("model_viewer-2222222222222222", 2, 1, 0),
        make_fp_dir_with_unit("serde-3333333333333333", 3, 1, 0),
        make_fp_dir_with_unit("gone-4444444444444444", 4, 1, 0),
    ];
    let live = LiveSet::from_names(&["model-viewer", "model_viewer", "serde"]);
    for form in ["model-viewer", "model_viewer"] {
        let mut inv = Inventory::build(&dirs, &live, None, now());
        promote_pruned_targets_to_stale(&dirs, &mut inv, &vec![form.to_string()]);
        assert_eq!(inv.stale_fingerprints, vec![3, 0, 1]);
        assert_eq!(inv.live_hashes.len(), 1);
        assert!(inv.live_hashes.contains("3333333333333333"));
    }
    // What goes already is not listed twice.
    let mut inv = Inventory::build(&dirs, &live, None, now());
    promote_pruned_targets_to_stale(&dirs, &mut inv, &vec!["gone".to_string()]);
    assert_eq!(inv.stale_fingerprints, vec![3]);
    let set = prune_set(&vec!["a-b".to_string()]);
    assert!(set.contains("a-b") && set.contains("a_b") && set.len() == 2);
}
