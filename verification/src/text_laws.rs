//! What holds of texts.

use vstd::prelude::*;

use crate::plain;
use crate::text::{self, IntError};

verus! {

broadcast use vstd::seq::group_seq_axioms;

/// White space in front of a text is skipped.
pub proof fn lemma_skipped(a: Seq<char>, t: Seq<char>)
    requires
        plain::is_all_blank(a),
        t.len() == 0 || !plain::is_blank(t[0]),
    ensures
        text::trim_front(a + t) == t,
    decreases a.len(),
{
    if a.len() > 0 {
        assert(plain::is_blank(a[0]));
        assert((a + t).drop_first() =~= a.drop_first() + t);
        lemma_skipped(a.drop_first(), t);
    } else {
        assert(a + t =~= t);
    }
}

/// White space behind a text is cut off.
proof fn lemma_cut_off(t: Seq<char>, b: Seq<char>)
    requires
        plain::is_all_blank(b),
        t.len() == 0 || !plain::is_blank(t[t.len() - 1]),
    ensures
        text::trim_back(t + b) == t,
    decreases b.len(),
{
    if b.len() > 0 {
        assert(plain::is_blank(b[b.len() - 1]));
        assert((t + b).drop_last() =~= t + b.drop_last());
        lemma_cut_off(t, b.drop_last());
    } else {
        assert(t + b =~= t);
    }
}

/// **Trimming takes the white space at either end and nothing else.**
pub proof fn trimming_takes_the_margin(a: Seq<char>, t: Seq<char>, b: Seq<char>)
    requires
        plain::is_all_blank(a),
        plain::is_all_blank(b),
        plain::has_no_margin(t),
    ensures
        text::trimmed(a + t + b) == t,
        text::trim_front(a + t) == t,
{
    lemma_skipped(a, t);
    if t.len() > 0 {
        assert(a + t + b =~= a + (t + b));
        lemma_skipped(a, t + b);
        lemma_cut_off(t, b);
    } else {
        assert(a + t + b =~= (a + b) + t);
        lemma_skipped(a + b, t);
        assert(text::trim_back(t) == t);
    }
}

/// **Every text has a trimmed form.** It stands between white space.
pub proof fn text_is_its_trimmed_form_with_margins(s: Seq<char>) -> (m: (Seq<char>, Seq<char>))
    ensures
        plain::is_all_blank(m.0),
        plain::is_all_blank(m.1),
        plain::has_no_margin(text::trimmed(s)),
        s == m.0 + text::trimmed(s) + m.1,
{
    let a = lemma_front(s);
    let f = text::trim_front(s);
    let b = lemma_back(f);
    let t = text::trim_back(f);
    if t.len() > 0 {
        assert(t[0] == f[0]);
    }
    assert(s =~= a + t + b);
    (a, b)
}

/// What trimming takes off the front.
proof fn lemma_front(s: Seq<char>) -> (a: Seq<char>)
    ensures
        plain::is_all_blank(a),
        s == a + text::trim_front(s),
        text::trim_front(s).len() == 0 || !plain::is_blank(text::trim_front(s)[0]),
    decreases s.len(),
{
    if s.len() > 0 && text::is_white(s[0]) {
        let a = lemma_front(s.drop_first());
        let all = seq![s[0]] + a;
        assert(s =~= seq![s[0]] + s.drop_first());
        assert(all + text::trim_front(s) =~= seq![s[0]] + (a + text::trim_front(s)));
        all
    } else {
        assert(s =~= Seq::<char>::empty() + s);
        Seq::empty()
    }
}

/// What trimming takes off the end.
proof fn lemma_back(s: Seq<char>) -> (b: Seq<char>)
    ensures
        plain::is_all_blank(b),
        s == text::trim_back(s) + b,
        text::trim_back(s).len() == 0 || !plain::is_blank(
            text::trim_back(s)[text::trim_back(s).len() - 1],
        ),
    decreases s.len(),
{
    if s.len() > 0 && text::is_white(s.last()) {
        let b = lemma_back(s.drop_last());
        let all = b + seq![s.last()];
        assert(s =~= s.drop_last() + seq![s.last()]);
        assert(text::trim_back(s) + all =~= (text::trim_back(s) + b) + seq![s.last()]);
        all
    } else {
        assert(s =~= s + Seq::<char>::empty());
        Seq::empty()
    }
}

/// A text without the separator is one piece.
pub proof fn text_without_separator_is_one_piece(s: Seq<char>, sep: char)
    requires
        !s.contains(sep),
    ensures
        text::split(s, sep) == seq![s],
{
    text::lemma_first_of(s, sep, sep);
    if text::first_of(s, sep, sep) is Some {
        assert(s.contains(s[text::first_of(s, sep, sep)->0]));
    }
}

/// **Splitting undoes joining.** A piece without the separator, the separator and
/// a further text split into that piece and the pieces of the further text.
pub proof fn splitting_undoes_joining(piece: Seq<char>, sep: char, rest: Seq<char>)
    requires
        !piece.contains(sep),
    ensures
        text::split(piece + seq![sep] + rest, sep) == seq![piece] + text::split(rest, sep),
{
    let s = piece + seq![sep] + rest;
    let i = piece.len() as int;
    assert(s[i] == sep);
    assert forall|j: int| 0 <= j < i implies s[j] != sep by {
        assert(s[j] == piece[j]);
        assert(piece.contains(piece[j]));
    }
    text::lemma_first_of_is(s, sep, sep, i);
    assert(s.take(i) =~= piece);
    assert(s.skip(i + 1) =~= rest);
}

/// **The first occurrence of a text is found.**
pub proof fn first_occurrence_is_found(hay: Seq<char>, needle: Seq<char>)
    ensures
        match text::occurrence(hay, needle) {
            Some(at) => plain::is_first_at(hay, needle, at),
            None => forall|k: int| !#[trigger] plain::is_at(hay, needle, k),
        },
    decreases hay.len(),
{
    assert(needle.is_prefix_of(hay) <==> plain::is_at(hay, needle, 0)) by {
        if needle.is_prefix_of(hay) {
            assert forall|i: int| 0 <= i < needle.len() implies hay[0 + i] == #[trigger] needle[i] by {
                assert(hay.subrange(0, needle.len() as int)[i] == hay[i]);
            }
        }
        if plain::is_at(hay, needle, 0) {
            assert forall|i: int| 0 <= i < needle.len() implies hay.subrange(
                0,
                needle.len() as int,
            )[i] == #[trigger] needle[i] by {
                assert(hay[0 + i] == needle[i]);
            }
            assert(needle =~= hay.subrange(0, needle.len() as int));
        }
    }
    if hay.len() > 0 && !needle.is_prefix_of(hay) {
        let t = hay.drop_first();
        first_occurrence_is_found(t, needle);
        assert forall|k: int| k >= 1 implies #[trigger] plain::is_at(hay, needle, k) == plain::is_at(
            t,
            needle,
            k - 1,
        ) by {
            if plain::is_at(hay, needle, k) {
                assert forall|i: int| 0 <= i < needle.len() implies t[k - 1 + i]
                    == #[trigger] needle[i] by {
                    assert(hay[k + i] == needle[i]);
                }
            }
            if plain::is_at(t, needle, k - 1) {
                assert forall|i: int| 0 <= i < needle.len() implies hay[k + i]
                    == #[trigger] needle[i] by {
                    assert(t[k - 1 + i] == needle[i]);
                }
            }
        }
        match text::occurrence(t, needle) {
            Some(at) => {
                assert(plain::is_at(hay, needle, at + 1));
                assert forall|k: int| 0 <= k < at + 1 implies !#[trigger] plain::is_at(
                    hay,
                    needle,
                    k,
                ) by {
                    if k >= 1 {
                        assert(!plain::is_at(t, needle, k - 1));
                    }
                }
            },
            None => {
                assert forall|k: int| !#[trigger] plain::is_at(hay, needle, k) by {
                    if k >= 1 {
                        assert(!plain::is_at(t, needle, k - 1));
                    }
                }
            },
        }
    }
}

/// **Digits have their place value.** A number is written as one digit if it is
/// less than ten, and else as the number of its tens with one more digit behind.
pub proof fn digits_have_their_place_value(n: nat, d: nat)
    requires
        d < 10,
    ensures
        text::decimal(d).len() == 1,
        text::decimal(d)[0] as int == 48 + d,
        n > 0 ==> text::decimal(10 * n + d) == text::decimal(n) + text::decimal(d),
{
    if n > 0 {
        assert((10 * n + d) / 10 == n);
        assert((10 * n + d) % 10 == d);
        assert(text::decimal(10 * n + d) =~= text::decimal(n) + text::decimal(d));
    }
}

/// **What is written in digits is read back.** Digits, with or without a sign in
/// front, read as the number that they write if it is not too large.
pub proof fn written_numbers_are_read(n: nat, max: int)
    ensures
        n <= max ==> text::unsigned_value(text::decimal(n), max) == Ok::<int, IntError>(n as int)
            && text::unsigned_value(seq!['+'] + text::decimal(n), max) == Ok::<int, IntError>(
            n as int,
        ),
        0 <= max < n ==> text::unsigned_value(text::decimal(n), max) == Err::<int, IntError>(
            IntError::PosOverflow,
        ),
{
    let s = text::decimal(n);
    let t = seq!['+'] + s;
    text::decimal_reads_back(n, n as int);
    assert(text::is_digit(s[0]));
    assert(t.skip(1) =~= s);
    if n <= max {
        text::decimal_reads_back(n, max);
    } else if 0 <= max {
        lemma_too_large(n, max);
    }
}

/// A number past `max` is too large.
proof fn lemma_too_large(n: nat, max: int)
    requires
        0 <= max < n,
    ensures
        text::decimal_value(text::decimal(n), max) == Err::<int, IntError>(IntError::PosOverflow),
    decreases n,
{
    let s = text::decimal(n);
    text::decimal_reads_back(n, n as int);
    assert(text::is_digit(s[s.len() - 1]));
    if n >= 10 {
        assert(s.drop_last() =~= text::decimal(n / 10));
        if n / 10 <= max {
            text::decimal_reads_back(n / 10, max);
        } else {
            lemma_too_large(n / 10, max);
        }
    } else {
        assert(s.drop_last() =~= Seq::<char>::empty());
        assert(text::decimal_value(Seq::<char>::empty(), max) == Ok::<int, IntError>(0));
    }
}

/// **What is no number is refused**: an empty text, a sign alone, and a text in
/// which something else than a digit follows on a number that is not too large.
pub proof fn other_texts_are_refused(n: nat, c: char, rest: Seq<char>, max: int)
    requires
        n <= max,
        (c as int) < 48 || 57 < c as int,
    ensures
        text::unsigned_value(Seq::empty(), max) == Err::<int, IntError>(IntError::Empty),
        text::unsigned_value(seq!['+'], max) == Err::<int, IntError>(IntError::InvalidDigit),
        text::unsigned_value(seq!['-'] + rest, max) == Err::<int, IntError>(IntError::InvalidDigit),
        text::unsigned_value(text::decimal(n) + seq![c] + rest, max) == Err::<int, IntError>(
            IntError::InvalidDigit,
        ),
{
    let s = text::decimal(n);
    let head = s + seq![c];
    text::decimal_reads_back(n, max);
    assert(head.drop_last() =~= s);
    assert(text::decimal_value(head, max) == Err::<int, IntError>(IntError::InvalidDigit));
    lemma_refused(head, rest, max);
    assert((head + rest)[0] == s[0]);
    assert(text::is_digit(s[0]));
    let minus = seq!['-'];
    assert(minus.drop_last() =~= Seq::<char>::empty());
    assert(text::decimal_value(Seq::<char>::empty(), max) == Ok::<int, IntError>(0));
    assert(text::decimal_value(minus, max) == Err::<int, IntError>(IntError::InvalidDigit));
    lemma_refused(minus, rest, max);
    assert((minus + rest)[0] == '-');
}

/// What follows on an error does not matter.
proof fn lemma_refused(head: Seq<char>, rest: Seq<char>, max: int)
    requires
        text::decimal_value(head, max) is Err,
    ensures
        text::decimal_value(head + rest, max) == text::decimal_value(head, max),
    decreases rest.len(),
{
    if rest.len() > 0 {
        assert((head + rest).drop_last() =~= head + rest.drop_last());
        lemma_refused(head, rest.drop_last(), max);
    } else {
        assert(head + rest =~= head);
    }
}

/// **The first difference orders texts**, by its code point; of two texts of which
/// one begins the other, the shorter comes first.
pub proof fn first_difference_orders_texts(
    common: Seq<char>,
    c: char,
    d: char,
    x: Seq<char>,
    y: Seq<char>,
)
    ensures
        c != d ==> text::text_le(common + seq![c] + x, common + seq![d] + y) == ((c as int) < (
        d as int)),
        text::text_le(common, common + x),
        x.len() > 0 ==> !text::text_le(common + x, common),
    decreases common.len(),
{
    if common.len() > 0 {
        let rest = common.drop_first();
        first_difference_orders_texts(rest, c, d, x, y);
        assert((common + seq![c] + x).drop_first() =~= rest + seq![c] + x);
        assert((common + seq![d] + y).drop_first() =~= rest + seq![d] + y);
        assert((common + x).drop_first() =~= rest + x);
    } else {
        assert((common + seq![c] + x)[0] == c);
        assert((common + seq![d] + y)[0] == d);
        assert(common + x =~= x);
    }
}

} // verus!
