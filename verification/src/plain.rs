//! Plain words for what is written in names and times, in which laws are stated.

use vstd::prelude::*;

use crate::inventory::FingerprintDir;
use crate::timestamp::Timestamp;

verus! {

broadcast use vstd::seq::group_seq_axioms;

/// Whether `h` is made of sixteen of the characters `0` to `9` and `a` to `f`.
pub open spec fn is_hex16(h: Seq<char>) -> bool {
    h.len() == 16 && forall|i: int|
        0 <= i < 16 ==> 48 <= (#[trigger] h[i]) as int <= 57 || 97 <= h[i] as int <= 102
}

/// `a` and `b` with a dash in between.
pub open spec fn dashed(a: Seq<char>, b: Seq<char>) -> Seq<char> {
    a + seq!['-'] + b
}

/// Whether `t` is `s` with an underscore for each dash, and else unchanged.
pub open spec fn is_underscored(s: Seq<char>, t: Seq<char>) -> bool {
    t.len() == s.len() && forall|i: int|
        0 <= i < s.len() ==> if s[i] == '-' {
            #[trigger] t[i] == '_'
        } else {
            t[i] == s[i]
        }
}

/// Whether `a` and `b` are the same text, but for dashes that are underscores in
/// the other.
pub open spec fn is_same_but_dashes(a: Seq<char>, b: Seq<char>) -> bool {
    a.len() == b.len() && forall|i: int|
        0 <= i < a.len() ==> #[trigger] a[i] == b[i] || ((a[i] == '-' || a[i] == '_') && (b[i]
            == '-' || b[i] == '_'))
}

/// Whether `name` is one of the texts, but for dashes that are underscores in the
/// other.
pub open spec fn is_one_but_dashes(texts: Seq<String>, name: Seq<char>) -> bool {
    exists|i: int| 0 <= i < texts.len() && is_same_but_dashes((#[trigger] texts[i])@, name)
}

/// Whether `c` is a space, a tab, a line break or another white character.
pub open spec fn is_blank(c: char) -> bool {
    let n = c as int;
    ||| n == 32 || n == 9 || n == 10 || n == 11 || n == 12 || n == 13
    ||| n == 133 || n == 160 || n == 5760
    ||| 8192 <= n <= 8202
    ||| n == 8232 || n == 8233 || n == 8239 || n == 8287 || n == 12288
}

/// Whether `s` is made of white characters.
pub open spec fn is_all_blank(s: Seq<char>) -> bool {
    forall|i: int| 0 <= i < s.len() ==> is_blank(#[trigger] s[i])
}

/// Whether `s` is empty, or begins and ends with something else than white
/// characters.
pub open spec fn has_no_margin(s: Seq<char>) -> bool {
    s.len() == 0 || (!is_blank(s[0]) && !is_blank(s[s.len() - 1]))
}

/// Whether `needle` stands in `hay` from `at` on.
pub open spec fn is_at(hay: Seq<char>, needle: Seq<char>, at: int) -> bool {
    0 <= at && at + needle.len() <= hay.len() && forall|i: int|
        0 <= i < needle.len() ==> hay[at + i] == #[trigger] needle[i]
}

/// Whether `needle` stands in `hay` from `at` on, and nowhere before.
pub open spec fn is_first_at(hay: Seq<char>, needle: Seq<char>, at: int) -> bool {
    is_at(hay, needle, at) && forall|k: int| 0 <= k < at ==> !#[trigger] is_at(hay, needle, k)
}

/// Whether `f` is the file name `s`, with or without an extension: where `f` has
/// a dot, `s` is what stands before the last one.
pub open spec fn is_stem_of(s: Seq<char>, f: Seq<char>) -> bool {
    ||| f == s && !f.contains('.')
    ||| exists|ext: Seq<char>| #[trigger] (s + seq!['.'] + ext) == f && !ext.contains('.')
}

/// Whether an entry of `.fingerprint/` is the dir of a unit of the crate `c` with
/// the hash `h`.
pub open spec fn is_unit_of(d: FingerprintDir, c: Seq<char>, h: Seq<char>) -> bool {
    d.is_dir && c.len() > 0 && is_hex16(h) && d.name@ == dashed(c, h)
}

/// Whether a fingerprint dir is older than the cutoff. Where it is not known when
/// it was invoked, it counts as invoked now.
pub open spec fn is_too_old(d: FingerprintDir, cutoff: Option<Timestamp>, now: Timestamp) -> bool {
    match cutoff {
        None => false,
        Some(t) => match d.invoked {
            Some(at) => at.nanos < t.nanos,
            None => now.nanos < t.nanos,
        },
    }
}

/// The nanosecond at which a fingerprint dir was last invoked, 0 where that is not
/// known.
pub open spec fn last_invoked(d: FingerprintDir) -> int {
    match d.invoked {
        Some(at) => at.nanos as int,
        None => 0,
    }
}

/// Whether no two fingerprint dirs have the same hash in their names.
pub open spec fn has_one_dir_for_each_hash(dirs: Seq<FingerprintDir>) -> bool {
    forall|i: int, j: int, a: Seq<char>, b: Seq<char>, h: Seq<char>|
        0 <= i < dirs.len() && 0 <= j < dirs.len() && #[trigger] is_unit_of(dirs[i], a, h)
            && #[trigger] is_unit_of(dirs[j], b, h) ==> i == j
}

/// Whether the dir at `j` was invoked later than the one at `i`, or at the same time
/// and is listed before it.
pub open spec fn is_later_dir(dirs: Seq<FingerprintDir>, j: int, i: int) -> bool {
    ||| last_invoked(dirs[j]) > last_invoked(dirs[i])
    ||| last_invoked(dirs[j]) == last_invoked(dirs[i]) && j < i
}

} // verus!
