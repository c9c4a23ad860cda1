use cargo_grime_cremator::live_set::WorkspaceTarget;
use cargo_grime_cremator::report::{format_systemtime, summary_line, target_line};
use cargo_grime_cremator::sweep::SweepReport;
use cargo_grime_cremator::timestamp::Timestamp;

#[test]
fn summary_tells_what_was_freed() {
    let r = SweepReport {
        removed_files: 12,
        removed_dirs: 3,
        freed_bytes: 1536,
    };
    assert_eq!(summary_line(&r, false), "12 files, 3 dirs, freed 1.5 K");
    assert_eq!(summary_line(&r, true), "12 files, 3 dirs, would free 1.5 K");
    assert_eq!(
        summary_line(&SweepReport::default(), false),
        "0 files, 0 dirs, freed 0 B"
    );
}

#[test]
fn times_show_their_age() {
    let t = Timestamp::after_epoch(1_740_096_000, 999_999_999);
    assert_eq!(
        format_systemtime(t, Timestamp::after_epoch(1_740_096_000 + 7200, 0)),
        "epoch 1740096000 (~1 h ago)"
    );
    assert_eq!(
        format_systemtime(t, Timestamp::after_epoch(1_740_096_000 + 7201, 0)),
        "epoch 1740096000 (~2 h ago)"
    );
    assert_eq!(format_systemtime(t, t), "epoch 1740096000 (~0 h ago)");
    assert_eq!(
        format_systemtime(t, Timestamp::after_epoch(1_740_096_000, 0)),
        "future"
    );
    assert_eq!(
        format_systemtime(Timestamp::before_epoch(3600, 0), Timestamp::epoch()),
        "epoch 0 (~1 h ago)"
    );
}

#[test]
fn targets_stand_in_columns() {
    let line = |kind: &str, name: &str, package: &str| {
        target_line(&WorkspaceTarget {
            name: name.to_string(),
            kind: kind.to_string(),
            package: package.to_string(),
        })
    };
    assert_eq!(line("bin", "fixture", "cargo-gc"), "  bin      fixture  (cargo-gc)");
    assert_eq!(
        line("proc-macro", "m", "p"),
        format!("  {:<8} {}  ({})", "proc-macro", "m", "p")
    );
    assert_eq!(
        line("\u{e9}t\u{e9}", "", "p"),
        format!("  {:<8} {}  ({})", "\u{e9}t\u{e9}", "", "p")
    );
}
