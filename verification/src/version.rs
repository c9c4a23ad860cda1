//! The version that the program goes by.

use vstd::prelude::*;

use crate::text::{self, chars_of, string_of, trim_range};

verus! {

broadcast use vstd::seq::group_seq_axioms;

/// `s` with every `-g` turned into `-`, from the front.
pub open spec fn without_git_marks(s: Seq<char>) -> Seq<char>
    decreases s.len(),
{
    if s.len() == 0 {
        Seq::empty()
    } else if s.len() >= 2 && s[0] == '-' && s[1] == 'g' {
        seq!['-'] + without_git_marks(s.skip(2))
    } else {
        seq![s[0]] + without_git_marks(s.drop_first())
    }
}

/// `s` without a `v` in front.
pub open spec fn without_v(s: Seq<char>) -> Seq<char> {
    if s.len() > 0 && s[0] == 'v' {
        s.drop_first()
    } else {
        s
    }
}

/// The version that a description of the git checkout stands for, as in
/// `v1.0.0-5-g6d8283d` for `1.0.0-5-6d8283d`.
pub open spec fn described(s: Seq<char>) -> Seq<char> {
    without_git_marks(without_v(text::trimmed(s)))
}

/// The version that a description of the git checkout stands for. Without one it
/// is the version of the package, or else unknown.
pub fn app_version(description: Option<&str>, package: Option<&str>) -> (r: String)
    ensures
        r@ == match (description, package) {
            (Some(s), _) => described(s@),
            (None, Some(version)) => version@,
            (None, None) => "unknown"@,
        },
{
    let description = match description {
        Some(s) => s,
        None => {
            return match package {
                Some(version) => version.to_owned(),
                None => "unknown".to_owned(),
            };
        },
    };
    let v = chars_of(description);
    assert(v@.subrange(0, v@.len() as int) =~= v@);
    let t = trim_range(&v, 0, v.len());
    let mut out: Vec<char> = Vec::new();
    let mut i: usize = if t.len() > 0 && t[0] == 'v' {
        1
    } else {
        0
    };
    let ghost whole = without_v(t@);
    assert(t@.skip(i as int) =~= whole);
    assert(out@ + without_git_marks(t@.skip(i as int)) =~= without_git_marks(whole));
    while i < t.len()
        invariant
            i <= t.len(),
            out@ + without_git_marks(t@.skip(i as int)) == without_git_marks(whole),
        decreases t.len() - i,
    {
        let ghost rest = t@.skip(i as int);
        let ghost done = out@;
        out.push(t[i]);
        if t[i] == '-' && i + 1 < t.len() && t[i + 1] == 'g' {
            assert(rest.skip(2) =~= t@.skip(i + 2));
            assert(out@ + without_git_marks(rest.skip(2)) =~= done + without_git_marks(rest));
            i = i + 2;
        } else {
            assert(rest.drop_first() =~= t@.skip(i + 1));
            assert(out@ + without_git_marks(rest.drop_first()) =~= done + without_git_marks(rest));
            i = i + 1;
        }
    }
    assert(out@.subrange(0, out@.len() as int) =~= out@);
    string_of(&out, 0, out.len())
}

} // verus!
