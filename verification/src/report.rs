//! The lines that the program prints.

use vstd::prelude::*;

use crate::live_set::{ListedTarget, WorkspaceTarget};
use crate::sweep::{self, human, SweepReport};
use crate::text::{self, chars_of, push_decimal};
use crate::timestamp::{Timestamp, NANOS_PER_SEC};

verus! {

broadcast use vstd::seq::group_seq_axioms;

/// Adds `s` to `out`.
fn push_text(out: &mut String, s: &str)
    ensures
        final(out)@ == old(out)@ + s@,
{
    let ghost start = out@;
    for c in it: s.chars()
        invariant
            out@ == start + it.seq().take(it.index()),
            it.seq() == s@,
    {
        out.push(c);
        assert(out@ =~= start + it.seq().take(it.index() + 1));
    }
    assert(s@.take(s@.len() as int) =~= s@);
}

/// The seconds from `from` to `to`, where `from` does not come later.
pub open spec fn whole_seconds(from: int, to: int) -> int {
    (to - from) / (NANOS_PER_SEC as int)
}

/// A point in time as the verbose output shows it at the time `now`: the epoch
/// second alongside an approximate age in hours. What lies before the epoch
/// shows as its second 0.
pub open spec fn time_text(t: int, now: int) -> Seq<char> {
    if now < t {
        "future"@
    } else {
        "epoch "@ + text::decimal(
            (if t < 0 {
                0
            } else {
                whole_seconds(0, t)
            }) as nat,
        ) + " (~"@ + text::decimal((whole_seconds(t, now) / 3600) as nat) + " h ago)"@
    }
}

/// Whether the seconds that `time_text` shows fit the numbers of the clock.
pub open spec fn is_showable(t: int, now: int) -> bool {
    t <= now ==> whole_seconds(0, t) <= u64::MAX && whole_seconds(t, now) <= u64::MAX
}

/// Format a point in time for the verbose-mode summary line. Reports the
/// epoch second alongside an approximate "Nh ago" so the user doesn't have
/// to mentally convert.
pub fn format_systemtime(t: Timestamp, now: Timestamp) -> (r: String)
    requires
        is_showable(t@, now@),
    ensures
        r@ == time_text(t@, now@),
{
    let mut out = String::new();
    if now.nanos < t.nanos {
        push_text(&mut out, "future");
        assert(out@ =~= "future"@);
        return out;
    }
    let age: i128 = now.nanos - t.nanos;
    let hours: u64 = ((age / NANOS_PER_SEC) / 3600) as u64;
    let secs: u64 = if t.nanos < 0 {
        0
    } else {
        (t.nanos / NANOS_PER_SEC) as u64
    };
    push_text(&mut out, "epoch ");
    push_decimal(&mut out, secs);
    push_text(&mut out, " (~");
    push_decimal(&mut out, hours);
    push_text(&mut out, " h ago)");
    assert(out@ =~= time_text(t@, now@));
    out
}

/// The last line of the output.
pub open spec fn summary_text(report: SweepReport, dry_run: bool) -> Seq<char> {
    text::decimal(report.removed_files as nat) + " files, "@ + text::decimal(
        report.removed_dirs as nat,
    ) + " dirs, "@ + (if dry_run {
        "would free"@
    } else {
        "freed"@
    }) + " "@ + sweep::human_text(report.freed_bytes as nat)
}

/// The last line of the output.
pub fn summary_line(report: &SweepReport, dry_run: bool) -> (r: String)
    ensures
        r@ == summary_text(*report, dry_run),
{
    let mut out = String::new();
    push_decimal(&mut out, report.removed_files as u64);
    push_text(&mut out, " files, ");
    push_decimal(&mut out, report.removed_dirs as u64);
    push_text(&mut out, " dirs, ");
    if dry_run {
        push_text(&mut out, "would free");
    } else {
        push_text(&mut out, "freed");
    }
    push_text(&mut out, " ");
    push_text(&mut out, human(report.freed_bytes).as_str());
    assert(out@ =~= summary_text(*report, dry_run));
    out
}

/// `n` spaces.
pub open spec fn spaces(n: nat) -> Seq<char> {
    Seq::new(n, |i: int| ' ')
}

/// `s`, filled up with spaces to a width of `width`.
pub open spec fn padded(s: Seq<char>, width: nat) -> Seq<char> {
    s + spaces(
        if s.len() < width {
            (width - s.len()) as nat
        } else {
            0
        },
    )
}

/// The line of a workspace target.
pub open spec fn target_text(t: ListedTarget) -> Seq<char> {
    "  "@ + padded(t.kind, 8) + " "@ + t.name + "  ("@ + t.package + ")"@
}

/// The line of a workspace target.
pub fn target_line(t: &WorkspaceTarget) -> (r: String)
    ensures
        r@ == target_text(t@),
{
    let mut out = String::new();
    push_text(&mut out, "  ");
    push_text(&mut out, t.kind.as_str());
    let ghost start = out@;
    let mut width: usize = chars_of(t.kind.as_str()).len();
    let ghost wide = width as int;
    let ghost fill = if wide < 8 {
        8 - wide
    } else {
        0
    };
    assert(start + spaces(0) =~= start);
    while width < 8
        invariant
            wide <= width,
            width <= 8 || width == wide,
            out@ == start + spaces((width - wide) as nat),
        decreases 8 - width,
    {
        out.push(' ');
        width = width + 1;
        assert(out@ =~= start + spaces((width - wide) as nat));
    }
    assert(width - wide == fill);
    push_text(&mut out, " ");
    push_text(&mut out, t.name.as_str());
    push_text(&mut out, "  (");
    push_text(&mut out, t.package.as_str());
    push_text(&mut out, ")");
    assert(out@ =~= target_text(t@));
    out
}

} // verus!
