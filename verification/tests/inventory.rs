use cargo_grime_cremator::inventory::{
    extract_deps_hash, file_stem, invoked_mtime, parse_unit_dirname, to_snake, FingerprintDir,
    Inventory,
};
use cargo_grime_cremator::live_set::LiveSet;
use cargo_grime_cremator::timestamp::Timestamp;

const NOW: u64 = 1_800_000_000;

fn ago(secs: u64) -> Timestamp {
    Timestamp::after_epoch(NOW - secs, 0)
}

fn make_fp_dir(name: &str, age_secs: u64) -> FingerprintDir {
    FingerprintDir {
        name: name.to_string(),
        is_unicode: true,
        is_dir: true,
        invoked: invoked_mtime(Some(ago(age_secs)), None),
        files: Vec::new(),
    }
}

fn cutoff_hours_ago(hours: u64) -> Timestamp {
    ago(hours * 3600)
}

#[test]
fn parses_simple_unit_name() {
    let (n, h) = parse_unit_dirname("serde-fbbf7037c381b247").unwrap();
    assert_eq!(n, "serde");
    assert_eq!(h, "fbbf7037c381b247");
}

#[test]
fn parses_hyphenated_crate_name() {
    let (n, h) = parse_unit_dirname("cfg-if-9b9bb928814887d2").unwrap();
    assert_eq!(n, "cfg-if");
    assert_eq!(h, "9b9bb928814887d2");
}

#[test]
fn parses_double_hyphenated_crate_name() {
    let (n, h) = parse_unit_dirname("crossbeam-utils-81f5350a630d1f64").unwrap();
    assert_eq!(n, "crossbeam-utils");
    assert_eq!(h, "81f5350a630d1f64");
}

#[test]
fn rejects_short_hash() {
    assert!(parse_unit_dirname("foo-deadbeef").is_none());
}

#[test]
fn rejects_uppercase_hex() {
    assert!(parse_unit_dirname("foo-DEADBEEFDEADBEEF").is_none());
}

#[test]
fn rejects_non_hex() {
    assert!(parse_unit_dirname("foo-zzzzzzzzzzzzzzzz").is_none());
}

#[test]
fn rejects_no_hash_segment() {
    assert!(parse_unit_dirname("invoked.timestamp").is_none());
    assert!(parse_unit_dirname("just-a-name").is_none());
}

#[test]
fn extracts_hash_from_rlib() {
    assert_eq!(
        extract_deps_hash("libcfg_if-9b9bb928814887d2.rlib"),
        Some("9b9bb928814887d2")
    );
}

#[test]
fn extracts_hash_from_rmeta() {
    assert_eq!(
        extract_deps_hash("liblog-7752fdb1f5381521.rmeta"),
        Some("7752fdb1f5381521")
    );
}

#[test]
fn extracts_hash_from_dep_info() {
    assert_eq!(
        extract_deps_hash("cfg_if-9b9bb928814887d2.d"),
        Some("9b9bb928814887d2")
    );
}

#[test]
fn extracts_hash_from_executable() {
    assert_eq!(
        extract_deps_hash("myapp-1234567890abcdef"),
        Some("1234567890abcdef")
    );
}

#[test]
fn no_hash_in_uninteresting_file() {
    assert_eq!(extract_deps_hash(".cargo-lock"), None);
    assert_eq!(extract_deps_hash("output"), None);
}

#[test]
fn snake_case_conversion() {
    assert_eq!(to_snake("cfg-if"), "cfg_if");
    assert_eq!(to_snake("crossbeam-utils"), "crossbeam_utils");
    assert_eq!(to_snake("serde"), "serde");
}

#[test]
fn strict_mode_keeps_all_live_crate_fingerprints() {
    // Both fingerprints belong to live crate "foo" — keep both no matter
    // how old they are, because age-based pruning is off.
    let dirs = vec![
        make_fp_dir("foo-1111111111111111", 0),
        make_fp_dir("foo-2222222222222222", 86_400 * 30),
        // This one belongs to a removed crate.
        make_fp_dir("gone-3333333333333333", 0),
    ];
    let live = LiveSet::from_names(&["foo"]);
    let inv = Inventory::build(&dirs, &live, None, ago(0));
    assert_eq!(inv.live_hashes.len(), 2);
    assert_eq!(inv.stale_fingerprints.len(), 1);
    assert!(dirs[inv.stale_fingerprints[0]].name.contains("gone"));
}

#[test]
fn max_age_prunes_units_older_than_cutoff() {
    let dirs = vec![
        make_fp_dir("foo-1111111111111111", 0),           // touched now
        make_fp_dir("foo-2222222222222222", 60 * 30),     // 30 minutes old
        make_fp_dir("foo-3333333333333333", 86_400 * 30), // 30 days old
    ];
    let live = LiveSet::from_names(&["foo"]);
    // Cutoff = 1 hour ago. Anything older than 1 hour is stale.
    let inv = Inventory::build(&dirs, &live, Some(cutoff_hours_ago(1)), ago(0));
    assert_eq!(inv.live_hashes.len(), 2, "the two fresh units survive");
    assert_eq!(inv.stale_fingerprints.len(), 1);
    assert!(
        dirs[inv.stale_fingerprints[0]]
            .name
            .contains("3333333333333333"),
        "expected the 30-day-old dir to be marked stale"
    );
}

#[test]
fn max_age_keeps_recent_singleton_crate() {
    let dirs = vec![make_fp_dir("foo-1111111111111111", 0)];
    let live = LiveSet::from_names(&["foo"]);
    let inv = Inventory::build(&dirs, &live, Some(cutoff_hours_ago(1)), ago(0));
    assert_eq!(inv.live_hashes.len(), 1);
    assert!(inv.stale_fingerprints.is_empty());
}

#[test]
fn max_age_nukes_unbuilt_singleton_after_cutoff() {
    // Single unit, aged 1 year. With age-pruning enabled and a
    // 1-hour-ago cutoff, it goes — there's no "newer twin" to anchor
    // against. This is the deliberate "didn't build before running gc"
    // risk.
    let dirs = vec![make_fp_dir("foo-1111111111111111", 86_400 * 365)];
    let live = LiveSet::from_names(&["foo"]);
    let inv = Inventory::build(&dirs, &live, Some(cutoff_hours_ago(1)), ago(0));
    assert!(inv.live_hashes.is_empty());
    assert_eq!(inv.stale_fingerprints.len(), 1);
}

#[test]
fn unit_at_the_cutoff_is_fresh() {
    let mut dirs = vec![make_fp_dir("foo-1111111111111111", 3600)];
    let live = LiveSet::from_names(&["foo"]);
    let cutoff = Some(cutoff_hours_ago(1));
    assert_eq!(Inventory::build(&dirs, &live, cutoff, ago(0)).live_hashes.len(), 1);
    dirs[0].invoked = Some(Timestamp { nanos: ago(3600).nanos - 1 });
    assert_eq!(Inventory::build(&dirs, &live, cutoff, ago(0)).live_hashes.len(), 0);
}

#[test]
fn unit_of_unknown_age_is_fresh() {
    let mut dirs = vec![make_fp_dir("foo-1111111111111111", 0)];
    dirs[0].invoked = None;
    let live = LiveSet::from_names(&["foo"]);
    let inv = Inventory::build(&dirs, &live, Some(cutoff_hours_ago(1)), ago(0));
    assert!(inv.live_hashes.contains("1111111111111111"));
    // Unless the cutoff itself is yet to come.
    let inv = Inventory::build(&dirs, &live, Some(ago(0)), ago(1));
    assert_eq!(inv.stale_fingerprints, vec![0]);
}

#[test]
fn what_is_no_unit_is_not_in_the_inventory() {
    let mut dirs = vec![
        make_fp_dir("gone", 0),
        make_fp_dir("gone-1111111111111111", 0),
        make_fp_dir("gone-2222222222222222", 0),
    ];
    dirs[1].is_dir = false;
    dirs[2].is_unicode = false;
    let live = LiveSet::from_names(&["foo"]);
    let inv = Inventory::build(&dirs, &live, None, ago(0));
    assert!(inv.live_hashes.is_empty());
    assert!(inv.stale_fingerprints.is_empty());
}

#[test]
fn time_of_invocation_falls_back_to_the_dir() {
    assert_eq!(invoked_mtime(Some(ago(1)), Some(ago(2))), Some(ago(1)));
    assert_eq!(invoked_mtime(None, Some(ago(2))), Some(ago(2)));
    assert_eq!(invoked_mtime(None, None), None);
}

#[test]
fn unit_names_read_back() {
    for name in ["serde", "cfg-if", "a-1234567890abcdef", "\u{e9}t\u{e9}"] {
        let whole = format!("{}-0123456789abcdef", name);
        assert_eq!(parse_unit_dirname(&whole), Some((name, "0123456789abcdef")));
    }
    assert_eq!(parse_unit_dirname("-0123456789abcdef"), None);
    assert_eq!(parse_unit_dirname("0123456789abcdef"), None);
    assert_eq!(parse_unit_dirname("a-0123456789abcdef0"), None);
    // Sixteen bytes, but not sixteen digits.
    assert_eq!(parse_unit_dirname("a-0123456789abcd\u{e9}"), None);
}

#[test]
fn artifacts_carry_hashes_whatever_their_extension() {
    assert_eq!(
        extract_deps_hash("libfoo-0123456789abcdef.so.d"),
        None,
        "only the last extension is taken off"
    );
    assert_eq!(
        extract_deps_hash("-0123456789abcdef.d"),
        Some("0123456789abcdef")
    );
    assert_eq!(file_stem("libfoo.rlib"), "libfoo");
    assert_eq!(file_stem(".cargo-lock"), "");
    assert_eq!(file_stem("myapp"), "myapp");
}

#[test]
fn default_inventory_is_empty() {
    let inv = Inventory::default();
    assert!(inv.live_hashes.is_empty());
    assert!(inv.stale_fingerprints.is_empty());
}
