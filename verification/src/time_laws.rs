//! What holds of dates and of max-age texts.

use vstd::prelude::*;

use crate::age::{self, AbsoluteError, CutoffError, CutoffOutcome};
use crate::civil;
use crate::plain;
use crate::text::{self, IntError};
use crate::text_laws;
use crate::timestamp::Timestamp;

verus! {

broadcast use vstd::seq::group_seq_axioms;

/// Whether there is such a date.
pub open spec fn is_date(y: int, m: int, d: int) -> bool {
    1 <= m <= 12 && 1 <= d <= civil::month_len(y, m)
}

/// The date after another.
pub open spec fn next_date(y: int, m: int, d: int) -> (int, int, int) {
    if d < civil::month_len(y, m) {
        (y, m, d + 1)
    } else if m < 12 {
        (y, m + 1, 1)
    } else {
        (y + 1, 1, 1)
    }
}

/// Whether a date comes before another.
pub open spec fn is_before(a: (int, int, int), b: (int, int, int)) -> bool {
    a.0 < b.0 || (a.0 == b.0 && (a.1 < b.1 || (a.1 == b.1 && a.2 < b.2)))
}

/// The months of a year fill it.
proof fn lemma_month_start(y: int, m: int)
    requires
        1 <= m <= 12,
    ensures
        0 <= civil::month_start(y, m),
        civil::month_start(y, m) + civil::month_len(y, m) <= civil::year_len(y),
        civil::month_start(y, 12) + 31 == civil::year_len(y),
        m < 12 ==> civil::month_start(y, m + 1) == civil::month_start(y, m) + civil::month_len(y, m),
{
    reveal_with_fuel(civil::month_start, 13);
}

/// The year after `y` begins when `y` is over.
proof fn lemma_next_year(y: int)
    ensures
        civil::year_start(y + 1) == civil::year_start(y) + civil::year_len(y),
{
    reveal_with_fuel(civil::year_start, 2);
}

/// Days are numbered from the 1st of January 1970 on, one after the other: the
/// day after a date has the next number.
pub proof fn days_are_numbered_in_turn(y: int, m: int, d: int)
    requires
        is_date(y, m, d),
    ensures
        civil::day_number(1970, 1, 1) == 0,
        ({
            let (y1, m1, d1) = next_date(y, m, d);
            &&& is_date(y1, m1, d1)
            &&& civil::day_number(y1, m1, d1) == civil::day_number(y, m, d) + 1
        }),
{
    reveal_with_fuel(civil::month_start, 2);
    lemma_month_start(y, m);
    lemma_next_year(y);
}

/// A later year begins later.
proof fn lemma_years_in_order(a: int, b: int)
    requires
        a < b,
    ensures
        civil::year_start(a) + civil::year_len(a) <= civil::year_start(b),
    decreases b - a,
{
    lemma_next_year(b - 1);
    if a < b - 1 {
        lemma_years_in_order(a, b - 1);
    }
}

/// A later month begins later.
proof fn lemma_months_in_order(y: int, a: int, b: int)
    requires
        1 <= a < b <= 12,
    ensures
        civil::month_start(y, a) + civil::month_len(y, a) <= civil::month_start(y, b),
    decreases b - a,
{
    lemma_month_start(y, b - 1);
    if a < b - 1 {
        lemma_months_in_order(y, a, b - 1);
    }
}

/// An earlier date has a smaller number, and an earlier point in time a smaller
/// second.
pub proof fn dates_are_in_order(a: (int, int, int), b: (int, int, int))
    requires
        is_date(a.0, a.1, a.2),
        is_date(b.0, b.1, b.2),
        is_before(a, b),
    ensures
        civil::day_number(a.0, a.1, a.2) < civil::day_number(b.0, b.1, b.2),
        forall|h: int, mi: int, s: int, h1: int, mi1: int, s1: int|
            0 <= h < 24 && 0 <= mi < 60 && 0 <= s < 60 && 0 <= h1 && 0 <= mi1 && 0 <= s1
                ==> #[trigger] civil::epoch_second(a.0, a.1, a.2, h, mi, s)
                < #[trigger] civil::epoch_second(b.0, b.1, b.2, h1, mi1, s1),
{
    lemma_month_start(a.0, a.1);
    lemma_month_start(b.0, b.1);
    if a.0 < b.0 {
        lemma_years_in_order(a.0, b.0);
    } else if a.1 < b.1 {
        lemma_months_in_order(a.0, a.1, b.1);
    }
}

/// What is left of a text once it is trimmed begins and ends with something else
/// than white space.
proof fn lemma_trim_front(s: Seq<char>)
    ensures
        text::trim_front(s).len() <= s.len(),
        text::trim_front(s) == s.skip(s.len() - text::trim_front(s).len()),
        text::trim_front(s).len() > 0 ==> !text::is_white(text::trim_front(s)[0]),
    decreases s.len(),
{
    if s.len() > 0 && text::is_white(s[0]) {
        lemma_trim_front(s.drop_first());
        let n = text::trim_front(s).len();
        assert(s.drop_first().skip(s.len() - 1 - n) =~= s.skip(s.len() - n));
    } else {
        assert(s.skip(0) =~= s);
    }
}

/// Trimming the end takes characters off the end alone.
proof fn lemma_trim_back(s: Seq<char>)
    ensures
        text::trim_back(s).len() <= s.len(),
        text::trim_back(s) == s.take(text::trim_back(s).len() as int),
        text::trim_back(s).len() > 0 ==> !text::is_white(text::trim_back(s).last()),
    decreases s.len(),
{
    if s.len() > 0 && text::is_white(s.last()) {
        lemma_trim_back(s.drop_last());
        let n = text::trim_back(s).len() as int;
        assert(s.drop_last().take(n) =~= s.take(n));
    } else {
        assert(s.take(s.len() as int) =~= s);
    }
}

/// A trimmed text is not trimmed further.
proof fn lemma_trimmed(s: Seq<char>)
    ensures
        text::trimmed(text::trimmed(s)) == text::trimmed(s),
        text::trimmed(s).len() > 0 ==> text::trimmed(s)[0] == text::trim_front(s)[0],
{
    let f = text::trim_front(s);
    let t = text::trimmed(s);
    lemma_trim_front(s);
    lemma_trim_back(f);
    if t.len() > 0 {
        assert(t[0] == f[0]);
    }
}

/// White space around a max-age text does not matter.
pub proof fn surrounding_white_space_does_not_matter(input: Seq<char>, now: int)
    ensures
        age::cutoff_outcome(text::trimmed(input), now) == age::cutoff_outcome(input, now),
        age::disables(text::trimmed(input)) == age::disables(input),
{
    lemma_trimmed(input);
}

/// A cutoff is never in the future.
pub proof fn cutoff_is_not_in_the_future(input: Seq<char>, now: int)
    ensures
        age::cutoff_outcome(input, now) matches CutoffOutcome::At(at) ==> at <= now,
{
}

/// Whether a text begins with four digits and a `-`.
pub open spec fn begins_like_a_date(t: Seq<char>) -> bool {
    t.len() >= 5 && (forall|i: int| 0 <= i < 4 ==> text::is_digit(#[trigger] t[i])) && t[4] == '-'
}

/// Text behind which something else than white space stands is not trimmed.
proof fn lemma_trimmed_before(s: Seq<char>, tail: Seq<char>)
    requires
        text::trimmed(s).len() > 0,
        tail.len() > 0,
        !text::is_white(tail.last()),
    ensures
        text::trimmed(s + tail) == text::trim_front(s) + tail,
    decreases s.len(),
{
    let f = text::trim_front(s);
    lemma_trim_front(s);
    lemma_trim_back(f);
    if s.len() > 0 && text::is_white(s[0]) {
        assert((s + tail).drop_first() =~= s.drop_first() + tail);
        lemma_trimmed_before(s.drop_first(), tail);
    } else {
        assert((s + tail).last() == tail.last());
    }
}

/// A ` ago` is cosmetic behind a text that does not begin like a date, whether it
/// is a duration or not. Behind a duration it always is: see `parse_cutoff_at`.
pub proof fn ago_is_cosmetic(input: Seq<char>, now: int)
    requires
        text::trimmed(input).len() > 0,
        !begins_like_a_date(text::trimmed(input)),
        !" ago"@.is_suffix_of(text::trimmed(input)),
    ensures
        age::cutoff_outcome(input + " ago"@, now) == age::cutoff_outcome(input, now),
        age::is_overlong_text(input + " ago"@) == age::is_overlong_text(input),
{
    reveal_strlit(" ago");
    let tail = " ago"@;
    let t = text::trimmed(input);
    let f = text::trim_front(input);
    lemma_trim_front(input);
    lemma_trim_back(f);
    lemma_trimmed_before(input, tail);
    let long = f + tail;
    assert(text::trimmed(input + tail) == long);
    assert(long.skip(f.len() as int) =~= tail);
    assert(tail.is_suffix_of(long));
    assert(long.take(f.len() as int) =~= f);
    lemma_trim_front(f);
    assert(text::trim_front(f) == f);
    assert(age::duration_part(long) == t);
    assert(age::duration_part(t) == t);
    assert(!age::looks_absolute(t)) by {
        if age::looks_absolute(t) {
            assert(begins_like_a_date(t));
        }
    }
    assert(!age::looks_absolute(long)) by {
        if age::looks_absolute(long) {
            if t.len() >= 5 {
                assert forall|i: int| 0 <= i < 4 implies text::is_digit(#[trigger] t[i]) by {
                    assert(long[i] == t[i]);
                }
                assert(long[4] == t[4]);
                assert(begins_like_a_date(t));
            } else {
                assert(t.len() <= 4);
                // Behind `t` stands white space or ` ago`, but neither a digit nor `-`.
                let i = t.len() as int;
                assert(text::is_white(long[i])) by {
                    if i < f.len() {
                        lemma_white_behind(f, i);
                    }
                }
                if i < 4 {
                    assert(text::is_digit(long[i]));
                }
            }
        }
    }
}

/// What trimming the end takes off is white space.
proof fn lemma_white_behind(s: Seq<char>, i: int)
    requires
        text::trim_back(s).len() <= i < s.len(),
    ensures
        text::is_white(s[i]),
    decreases s.len(),
{
    if s.len() > 0 && text::is_white(s.last()) {
        if i < s.len() - 1 {
            lemma_white_behind(s.drop_last(), i);
            assert(s.drop_last()[i] == s[i]);
        }
    }
}

/// A text has at least as many bytes as characters.
proof fn lemma_bytes(s: Seq<char>)
    ensures
        vstd::utf8::encode_utf8(s).len() >= s.len(),
    decreases s.len(),
{
    if s.len() > 0 {
        lemma_bytes(s.drop_first());
    }
}

/// A space and a `T` take one byte each.
proof fn lemma_same_bytes(d: Seq<char>, time: Seq<char>)
    ensures
        vstd::utf8::encode_utf8(d + seq![' '] + time).len() == vstd::utf8::encode_utf8(
            d + seq!['T'] + time,
        ).len(),
    decreases d.len(),
{
    let a = d + seq![' '] + time;
    let b = d + seq!['T'] + time;
    if d.len() > 0 {
        let rest = d.drop_first();
        assert(a.drop_first() =~= rest + seq![' '] + time);
        assert(b.drop_first() =~= rest + seq!['T'] + time);
        lemma_same_bytes(rest, time);
    } else {
        assert(a.drop_first() =~= time);
        assert(b.drop_first() =~= time);
    }
}

/// Whether `d` can be the date part of a datetime: it has neither a space nor a
/// `T` in it.
pub open spec fn is_date_part(d: Seq<char>) -> bool {
    forall|i: int| 0 <= i < d.len() ==> #[trigger] d[i] != ' ' && d[i] != 'T'
}

/// A text with a separator in it splits there.
proof fn lemma_date_and_time(d: Seq<char>, sep: char, time: Seq<char>)
    requires
        is_date_part(d),
        sep == ' ' || sep == 'T',
    ensures
        age::date_and_time(d + seq![sep] + time) == (d, Some(text::trimmed(time))),
{
    let s = d + seq![sep] + time;
    let i = d.len() as int;
    assert(s[i] == sep);
    text::lemma_first_of_is(s, ' ', 'T', i);
    assert(s.take(i) =~= d);
    assert(s.skip(i + 1) =~= time);
}

/// A space and a `T` between date and time mean the same.
pub proof fn space_and_t_mean_the_same(d: Seq<char>, time: Seq<char>)
    requires
        is_date_part(d),
    ensures
        age::absolute(d + seq![' '] + time) == age::absolute(d + seq!['T'] + time),
{
    let a = d + seq![' '] + time;
    let b = d + seq!['T'] + time;
    lemma_date_and_time(d, ' ', time);
    lemma_date_and_time(d, 'T', time);
    lemma_same_bytes(d, time);
    assert forall|i: int| 0 <= i < 4 && i < a.len() && i != d.len() implies a[i] == b[i] by {}
    if d.len() < 5 {
        // Too short for a date: what stands at the separator is no digit and no `-`.
        let i = d.len() as int;
        assert(a[i] == ' ' && b[i] == 'T');
        if age::looks_absolute(a) && i < 4 {
            assert(text::is_digit(a[i]));
        }
        if age::looks_absolute(b) && i < 4 {
            assert(text::is_digit(b[i]));
        }
    } else {
        assert forall|i: int| 0 <= i < 5 implies a[i] == b[i] by {}
        assert(age::looks_absolute(a) == age::looks_absolute(b)) by {
            if age::looks_absolute(a) {
                assert forall|i: int| 0 <= i < 4 implies text::is_digit(#[trigger] b[i]) by {
                    assert(text::is_digit(a[i]));
                }
            }
            if age::looks_absolute(b) {
                assert forall|i: int| 0 <= i < 4 implies text::is_digit(#[trigger] a[i]) by {
                    assert(text::is_digit(b[i]));
                }
            }
        }
        if age::looks_absolute(a) {
            assert(a[0] == b[0] && a[1] == b[1] && a[2] == b[2] && a[3] == b[3]);
        }
    }
}

/// A date without a time means its midnight.
pub proof fn date_means_its_midnight(d: Seq<char>, sep: char, time: Seq<char>)
    requires
        is_date_part(d),
        d.len() >= 10,
        sep == ' ' || sep == 'T',
        age::time_of_day(text::trimmed(time)) == Ok::<
            (u32, u32, u32),
            age::AbsoluteError<Seq<char>>,
        >((0u32, 0u32, 0u32)),
    ensures
        age::absolute(d) == age::absolute(d + seq![sep] + time),
{
    let s = d + seq![sep] + time;
    lemma_date_and_time(d, sep, time);
    text::lemma_first_of(d, ' ', 'T');
    if text::first_of(d, ' ', 'T') is Some {
        let i = text::first_of(d, ' ', 'T')->0;
        assert(d[i] != ' ');
    }
    lemma_bytes(d);
    lemma_bytes(s);
    assert forall|i: int| 0 <= i < 5 implies d[i] == s[i] by {}
    assert(age::looks_absolute(d) == age::looks_absolute(s)) by {
        if age::looks_absolute(d) {
            assert forall|i: int| 0 <= i < 4 implies text::is_digit(#[trigger] s[i]) by {
                assert(text::is_digit(d[i]));
            }
        }
        if age::looks_absolute(s) {
            assert forall|i: int| 0 <= i < 4 implies text::is_digit(#[trigger] d[i]) by {
                assert(text::is_digit(s[i]));
            }
        }
    }
    if age::looks_absolute(d) {
        assert(d[0] == s[0] && d[1] == s[1] && d[2] == s[2] && d[3] == s[3]);
    }
}

/// How many digits `s` has.
pub open spec fn digits(s: Seq<char>) -> int
    decreases s.len(),
{
    if s.len() == 0 {
        0
    } else {
        digits(s.drop_first()) + (if text::is_digit(s[0]) {
            1int
        } else {
            0int
        })
    }
}

/// The digits of two texts add up.
proof fn lemma_digits_add_up(a: Seq<char>, b: Seq<char>)
    ensures
        digits(a + b) == digits(a) + digits(b),
        digits(a) >= 0,
    decreases a.len(),
{
    if a.len() > 0 {
        assert((a + b).drop_first() =~= a.drop_first() + b);
        lemma_digits_add_up(a.drop_first(), b);
    } else {
        assert(a + b =~= b);
    }
}

/// A piece of a text has no more digits than the text.
proof fn lemma_digits_of_piece(s: Seq<char>, from: int, to: int)
    requires
        0 <= from <= to <= s.len(),
    ensures
        digits(s.subrange(from, to)) <= digits(s),
{
    let a = s.take(from);
    let b = s.subrange(from, to);
    let c = s.skip(to);
    assert(s =~= a + b + c);
    lemma_digits_add_up(a + b, c);
    lemma_digits_add_up(a, b);
    lemma_digits_add_up(c, Seq::empty());
}

/// Ten to the power of the number of digits of `s` from `i` on.
spec fn digits_scale(s: Seq<char>, i: int) -> int
    decreases s.len() - i,
{
    if i >= s.len() {
        1
    } else if text::is_digit(s[i]) {
        10 * digits_scale(s, i + 1)
    } else {
        digits_scale(s, i + 1)
    }
}

/// A text writes no more seconds than its digits can write years, and a span for
/// each character.
proof fn lemma_seconds_bound(s: Seq<char>, i: int, n: int, in_fraction: bool)
    requires
        0 <= i <= s.len(),
        0 <= n,
    ensures
        digits_scale(s, i) >= 1,
        age::seconds_from(s, i, n, in_fraction) <= 31557600 * ((n + 1) * digits_scale(s, i))
            + 18_480_000_000 * (s.len() - i),
    decreases s.len() - i,
{
    if i < s.len() {
        let rest = digits_scale(s, i + 1);
        if text::is_digit(s[i]) {
            let next = if in_fraction {
                n
            } else {
                age::next_number(n, s[i])
            };
            lemma_seconds_bound(s, i + 1, next, in_fraction);
            assert((next + 1) * rest <= (n + 1) * (10 * rest)) by (nonlinear_arith)
                requires
                    0 <= next <= 10 * n + 9,
                    rest >= 1,
            ;
        } else if age::is_unit_start(s, i) {
            lemma_seconds_bound(s, i + 1, 0, false);
            age::lemma_span(s, i, n, in_fraction);
            assert(n + 1 + rest <= (n + 1) * rest + 1) by (nonlinear_arith)
                requires
                    0 <= n,
                    rest >= 1,
            ;
        } else {
            lemma_seconds_bound(s, i + 1, n, in_fraction || s[i] == '.');
        }
    } else {
        assert(31557600 * ((n + 1) * 1) >= 0);
    }
}

/// The scale of a text with few digits is small.
proof fn lemma_digits_scale(s: Seq<char>, i: int)
    requires
        0 <= i <= s.len(),
    ensures
        digits(s.skip(i)) >= 0,
        digits_scale(s, i) == power_of_ten(digits(s.skip(i))),
    decreases s.len() - i,
{
    if i < s.len() {
        lemma_digits_scale(s, i + 1);
        assert(s.skip(i).drop_first() =~= s.skip(i + 1));
    }
}

/// Ten to the power of `n`.
spec fn power_of_ten(n: int) -> int
    decreases n,
{
    if n <= 0 {
        1
    } else {
        10 * power_of_ten(n - 1)
    }
}

/// A max-age text with fewer than twelve digits is always taken.
pub proof fn few_digits_are_always_taken(input: Seq<char>)
    requires
        digits(input) < 12,
        input.len() <= 1_000_000,
    ensures
        !age::is_overlong_text(input),
{
    let f = text::trim_front(input);
    let t = text::trimmed(input);
    lemma_trim_front(input);
    lemma_trim_back(f);
    let n = input.len() - f.len();
    assert(t =~= input.subrange(n, n + t.len()));
    lemma_digits_of_piece(input, n, n + t.len());
    let d = age::duration_part(t);
    assert(digits(d) <= digits(t) && d.len() <= t.len()) by {
        if " ago"@.is_suffix_of(t) {
            reveal_strlit(" ago");
            let body = t.take(t.len() - " ago"@.len());
            let g = text::trim_front(body);
            lemma_trim_front(body);
            lemma_trim_back(g);
            let m = body.len() - g.len();
            assert(d =~= t.subrange(m, m + d.len()));
            lemma_digits_of_piece(t, m, m + d.len());
        }
    }
    lemma_seconds_bound(d, 0, 0, false);
    lemma_digits_scale(d, 0);
    assert(d.skip(0) =~= d);
    assert(power_of_ten(digits(d)) <= 100_000_000_000) by {
        reveal_with_fuel(power_of_ten, 12);
    }
}

/// **A duration is counted back from now.** The cutoff lies exactly the seconds and
/// nanoseconds of the duration before the present; there is none where that is
/// further back than the clock reaches, or where there is no duration.
pub proof fn duration_is_counted_back(duration: Option<(u64, u32)>, now: int)
    ensures
        match age::relative_outcome(duration, now) {
            CutoffOutcome::At(at) => duration matches Some((secs, nanos)) && at + secs
                * 1_000_000_000 + nanos == now && at >= -9_223_372_036_854_775_808
                * 1_000_000_000,
            CutoffOutcome::TooFarPast => duration matches Some((secs, nanos)) && now - secs
                * 1_000_000_000 - nanos < -9_223_372_036_854_775_808 * 1_000_000_000,
            CutoffOutcome::NotADuration => duration is None,
            _ => false,
        },
{
}

/// **A longer duration reaches further back.**
pub proof fn longer_duration_reaches_further_back(a: (u64, u32), b: (u64, u32), now: int)
    requires
        a.0 * 1_000_000_000 + a.1 < b.0 * 1_000_000_000 + b.1,
    ensures
        (age::relative_outcome(Some(a), now) matches CutoffOutcome::At(x) && (age::relative_outcome(
            Some(b),
            now,
        ) matches CutoffOutcome::At(y) ==> y < x)) || age::relative_outcome(Some(b), now)
            == CutoffOutcome::TooFarPast,
{
    duration_is_counted_back(Some(a), now);
    duration_is_counted_back(Some(b), now);
}

/// **What does not begin like a date is read as a duration**, with white space
/// around it and with ` ago` behind it or without.
pub proof fn other_texts_are_read_as_durations(
    a: Seq<char>,
    t: Seq<char>,
    b: Seq<char>,
    now: int,
    secs: u64,
    nanos: u32,
)
    requires
        plain::is_all_blank(a),
        plain::is_all_blank(b),
        plain::has_no_margin(t),
        t.len() > 0,
        !(t.len() >= 5 && t[4] == '-'),
        !" ago"@.is_suffix_of(t),
        age::humantime_duration(t) == Some((secs, nanos)),
        now - secs * 1_000_000_000 - nanos >= -9_223_372_036_854_775_808 * 1_000_000_000,
    ensures
        age::cutoff_outcome(a + t + b, now) == CutoffOutcome::At(
            now - secs * 1_000_000_000 - nanos,
        ),
        age::cutoff_outcome(a + t + b + " ago"@, now) == CutoffOutcome::At(
            now - secs * 1_000_000_000 - nanos,
        ),
{
    let input = a + t + b;
    text_laws::trimming_takes_the_margin(a, t, b);
    assert(text::trimmed(input) == t);
    assert(!age::looks_absolute(t));
    assert(age::duration_part(t) == t);
    duration_is_counted_back(Some((secs, nanos)), now);
    ago_is_cosmetic(input, now);
}

/// **A duration with ` ago` behind it is the duration.**
pub proof fn ago_is_cut_off(t: Seq<char>, a: Seq<char>)
    requires
        plain::is_all_blank(a),
        plain::has_no_margin(t),
    ensures
        age::duration_part(t + a + " ago"@) == t,
        !" ago"@.is_suffix_of(t) ==> age::duration_part(t) == t,
{
    let ago = " ago"@;
    let s = t + a + ago;
    assert(s.subrange(s.len() - ago.len(), s.len() as int) =~= ago);
    assert(s.take(s.len() - ago.len()) =~= Seq::<char>::empty() + t + a);
    text_laws::trimming_takes_the_margin(Seq::empty(), t, a);
}

/// **The age check is disabled by `never`, `off`, `0` or nothing**, with white space
/// around it, and by nothing else.
pub proof fn age_check_is_disabled_by_a_few_words(a: Seq<char>, t: Seq<char>, b: Seq<char>, now: int)
    requires
        plain::is_all_blank(a),
        plain::is_all_blank(b),
        plain::has_no_margin(t),
    ensures
        age::disables(a + t + b) <==> t == "never"@ || t == "off"@ || t == "0"@ || t == ""@,
        age::setting_outcome(a + t + b, now) is None <==> t == "never"@ || t == "off"@ || t == "0"@
            || t == ""@,
        age::setting_outcome(a + t + b, now) matches Some(outcome) ==> outcome
            == age::cutoff_outcome(a + t + b, now),
{
    reveal_strlit("");
    text_laws::trimming_takes_the_margin(a, t, b);
    if t.len() == 0 {
        assert(t =~= ""@);
    }
}

/// **An empty text gives no cutoff, and a date that is yet to come none either.**
pub proof fn dates_to_come_are_refused(a: Seq<char>, t: Seq<char>, b: Seq<char>, now: int)
    requires
        plain::is_all_blank(a),
        plain::is_all_blank(b),
        plain::has_no_margin(t),
    ensures
        age::cutoff_outcome(a + t + b, now) == CutoffOutcome::Empty <==> t == ""@,
        t.len() > 0 ==> match age::absolute(t) {
            Ok(Some(at)) => age::cutoff_outcome(a + t + b, now) == (if at <= now {
                CutoffOutcome::At(at)
            } else {
                CutoffOutcome::Future
            }),
            Err(e) => age::cutoff_outcome(a + t + b, now) == CutoffOutcome::Absolute(e),
            Ok(None) => true,
        },
{
    reveal_strlit("");
    text_laws::trimming_takes_the_margin(a, t, b);
    if t.len() == 0 {
        assert(t =~= ""@);
    }
}

/// **A reading of the clock counts from the epoch**, forwards or backwards.
pub proof fn clock_counts_from_the_epoch(secs: u64, nanos: u32)
    ensures
        age::reading_time(Ok((secs, nanos))) == secs * 1_000_000_000 + nanos,
        age::reading_time(Err((secs, nanos))) == -(secs * 1_000_000_000 + nanos),
        age::reading_time(Ok((secs, nanos))) + age::reading_time(Err((secs, nanos))) == 0,
{
}

/// **The calendar is the Gregorian one.** Every fourth year is a leap year, but of
/// the years that end in two zeros only every fourth; April, June, September and
/// November have 30 days, February has 28 or in a leap year 29, and the other
/// months have 31.
pub proof fn calendar_is_the_gregorian_one(y: int)
    ensures
        y % 4 != 0 ==> civil::month_len(y, 2) == 28 && civil::year_len(y) == 365,
        y % 4 == 0 && y % 100 != 0 ==> civil::month_len(y, 2) == 29 && civil::year_len(y) == 366,
        y % 100 == 0 && y % 400 != 0 ==> civil::month_len(y, 2) == 28 && civil::year_len(y) == 365,
        y % 400 == 0 ==> civil::month_len(y, 2) == 29 && civil::year_len(y) == 366,
        civil::month_len(y, 4) == 30 && civil::month_len(y, 6) == 30 && civil::month_len(y, 9) == 30
            && civil::month_len(y, 11) == 30,
        civil::month_len(y, 1) == 31 && civil::month_len(y, 3) == 31 && civil::month_len(y, 5) == 31
            && civil::month_len(y, 7) == 31 && civil::month_len(y, 8) == 31 && civil::month_len(
            y,
            10,
        ) == 31 && civil::month_len(y, 12) == 31,
{
}

/// **The day has 24 hours of 60 minutes of 60 seconds.** A time of day is so many
/// seconds behind midnight, and midnight is 86400 seconds behind the one before.
pub proof fn day_has_86400_seconds(y: int, m: int, d: int, h: int, mi: int, s: int)
    ensures
        civil::epoch_second(y, m, d, h, mi, s) == civil::epoch_second(y, m, d, 0, 0, 0) + 3600 * h
            + 60 * mi + s,
        civil::epoch_second(y, m, d + 1, 0, 0, 0) == civil::epoch_second(y, m, d, 0, 0, 0) + 86400,
        civil::epoch_second(y, m, d, 0, 0, 0) == 86400 * civil::day_number(y, m, d),
        civil::epoch_second(1970, 1, 1, 0, 0, 0) == 0,
{
    reveal_with_fuel(civil::month_start, 2);
}

/// **Dates and times are checked.** A month is one of twelve, a day at most the
/// 31st, an hour less than 24, a minute and a second less than 60; and nothing
/// lies before 1970. Otherwise the time is the one on the calendar.
pub proof fn dates_and_times_are_checked(y: i32, m: u32, d: u32, h: u32, mi: u32, s: u32)
    ensures
        m < 1 || 12 < m || d < 1 || 31 < d || 24 <= h || 60 <= mi || 60 <= s
            <==> age::civil_time(y, m, d, h, mi, s) == Err::<int, AbsoluteError<Seq<char>>>(
            AbsoluteError::OutOfRange { year: y, month: m, day: d, hour: h, minute: mi, second: s },
        ),
        1 <= m <= 12 && 1 <= d <= 31 && h < 24 && mi < 60 && s < 60 ==> {
            let at = 86400 * civil::day_number(y as int, m as int, d as int) + 3600 * h + 60 * mi
                + s;
            age::civil_time(y, m, d, h, mi, s) == if at < 0 {
                Err::<int, AbsoluteError<Seq<char>>>(AbsoluteError::Before1970)
            } else {
                Ok(at * 1_000_000_000)
            }
        },
{
}

/// `n` as one digit.
pub open spec fn one_digit(n: nat) -> Seq<char> {
    text::decimal(n % 10)
}

/// `n` as two digits.
pub open spec fn two_digits(n: nat) -> Seq<char> {
    one_digit(n / 10) + one_digit(n)
}

/// A date as in `2025-02-21`.
pub open spec fn date_text(y: nat, m: nat, d: nat) -> Seq<char> {
    (two_digits(y / 100) + two_digits(y)) + seq!['-'] + (two_digits(m) + seq!['-'] + two_digits(d))
}

/// A time as in `13:00`.
pub open spec fn minute_text(h: nat, mi: nat) -> Seq<char> {
    two_digits(h) + seq![':'] + two_digits(mi)
}

/// Two digits write a number below a hundred.
proof fn lemma_two_digits(n: nat)
    requires
        n < 100,
    ensures
        two_digits(n).len() == 2,
        text::is_digit(two_digits(n)[0]),
        text::is_digit(two_digits(n)[1]),
        10 * text::digit_value(two_digits(n)[0]) + text::digit_value(two_digits(n)[1]) == n,
        text::unsigned_value(two_digits(n), u32::MAX as int) == Ok::<int, IntError>(n as int),
{
    text_laws::digits_have_their_place_value(0, n / 10);
    text_laws::digits_have_their_place_value(0, n % 10);
    assert((n / 10) % 10 == n / 10);
    let s = two_digits(n);
    let max = u32::MAX as int;
    assert(s.len() == 2);
    let a = s.drop_last();
    assert(a.len() == 1);
    assert(a[0] == s[0]);
    assert(a.last() == s[0]);
    assert(a.drop_last() =~= Seq::<char>::empty());
    assert(text::decimal_value(Seq::<char>::empty(), max) == Ok::<int, IntError>(0));
    assert(text::decimal_value(a, max) == Ok::<int, IntError>(text::digit_value(s[0])));
    assert(s.last() == s[1]);
}

/// The parts of a date.
proof fn lemma_date_text(y: nat, m: nat, d: nat)
    requires
        y < 10000,
        m < 100,
        d < 100,
    ensures
        ({
            let s = date_text(y, m, d);
            &&& s.len() == 10
            &&& is_date_part(s)
            &&& age::leading_year(s) == y
            &&& text::split(s, '-') == seq![
                two_digits(y / 100) + two_digits(y),
                two_digits(m),
                two_digits(d),
            ]
            &&& s[4] == '-'
            &&& forall|i: int| 0 <= i < 4 ==> text::is_digit(#[trigger] s[i])
        }),
{
    let s = date_text(y, m, d);
    let yy = two_digits(y / 100) + two_digits(y);
    let md = two_digits(m) + seq!['-'] + two_digits(d);
    lemma_two_digits(y / 100);
    lemma_two_digits(y % 100);
    assert(two_digits(y) == two_digits(y % 100)) by {
        assert((y / 10) % 10 == ((y % 100) / 10) % 10);
        assert(y % 10 == (y % 100) % 10);
    }
    lemma_two_digits(m);
    lemma_two_digits(d);
    assert(s[0] == two_digits(y / 100)[0] && s[1] == two_digits(y / 100)[1]);
    assert(s[2] == two_digits(y)[0] && s[3] == two_digits(y)[1]);
    assert(s[4] == '-' && s[7] == '-');
    assert(s[5] == two_digits(m)[0] && s[6] == two_digits(m)[1]);
    assert(s[8] == two_digits(d)[0] && s[9] == two_digits(d)[1]);
    assert forall|i: int| 0 <= i < yy.len() implies yy[i] != '-' by {
        assert(yy[i] == s[i]);
    }
    assert forall|i: int| 0 <= i < 2 implies two_digits(m)[i] != '-' && two_digits(d)[i] != '-' by {
        assert(i == 0 || i == 1);
    }
    assert(!yy.contains('-'));
    assert(!two_digits(m).contains('-'));
    assert(!two_digits(d).contains('-'));
    text_laws::splitting_undoes_joining(yy, '-', md);
    text_laws::splitting_undoes_joining(two_digits(m), '-', two_digits(d));
    text_laws::text_without_separator_is_one_piece(two_digits(d), '-');
    assert(text::split(s, '-') =~= seq![yy, two_digits(m), two_digits(d)]);
    assert forall|i: int| 0 <= i < s.len() implies #[trigger] s[i] != ' ' && s[i] != 'T' by {
        assert(i == 4 || i == 7 || text::is_digit(s[i]));
    }
}

/// The time that a minute, and a second, write.
proof fn lemma_time_text(h: nat, mi: nat, s: nat)
    requires
        h < 100,
        mi < 100,
        s < 100,
    ensures
        age::time_of_day(minute_text(h, mi)) == Ok::<(u32, u32, u32), AbsoluteError<Seq<char>>>(
            (h as u32, mi as u32, 0u32),
        ),
        age::time_of_day(minute_text(h, mi) + seq![':'] + two_digits(s)) == Ok::<
            (u32, u32, u32),
            AbsoluteError<Seq<char>>,
        >((h as u32, mi as u32, s as u32)),
{
    let a = two_digits(h);
    let b = two_digits(mi);
    let c = two_digits(s);
    lemma_two_digits(h);
    lemma_two_digits(mi);
    lemma_two_digits(s);
    assert(!a.contains(':') && !b.contains(':') && !c.contains(':'));
    text_laws::splitting_undoes_joining(a, ':', b);
    text_laws::text_without_separator_is_one_piece(b, ':');
    assert(text::split(minute_text(h, mi), ':') =~= seq![a, b]);
    let bc = b + seq![':'] + c;
    assert(minute_text(h, mi) + seq![':'] + c =~= a + seq![':'] + bc);
    text_laws::splitting_undoes_joining(a, ':', bc);
    text_laws::splitting_undoes_joining(b, ':', c);
    text_laws::text_without_separator_is_one_piece(c, ':');
    assert(text::split(a + seq![':'] + bc, ':') =~= seq![a, b, c]);
}

/// What a result of reading a datetime comes to.
pub open spec fn read_as(
    r: Result<int, AbsoluteError<Seq<char>>>,
) -> Result<Option<int>, AbsoluteError<Seq<char>>> {
    match r {
        Ok(at) => Ok(Some(at)),
        Err(e) => Err(e),
    }
}

/// **Written dates and times are read.** A year of four digits, a month and a day,
/// and behind a space or a `T` an hour, a minute and perhaps a second, mean that
/// point in time; a date alone means its midnight.
pub proof fn written_datetimes_are_read(
    y: nat,
    m: nat,
    d: nat,
    h: nat,
    mi: nat,
    s: nat,
    sep: char,
)
    requires
        y < 10000,
        m < 100,
        d < 100,
        h < 100,
        mi < 100,
        s < 100,
        sep == ' ' || sep == 'T',
    ensures
        age::absolute(date_text(y, m, d)) == read_as(
            age::civil_time(y as i32, m as u32, d as u32, 0, 0, 0),
        ),
        age::absolute(date_text(y, m, d) + seq![sep] + minute_text(h, mi)) == read_as(
            age::civil_time(y as i32, m as u32, d as u32, h as u32, mi as u32, 0),
        ),
        age::absolute(
            date_text(y, m, d) + seq![sep] + (minute_text(h, mi) + seq![':'] + two_digits(s)),
        ) == read_as(
            age::civil_time(y as i32, m as u32, d as u32, h as u32, mi as u32, s as u32),
        ),
{
    let date = date_text(y, m, d);
    let short = minute_text(h, mi);
    let long = short + seq![':'] + two_digits(s);
    lemma_date_text(y, m, d);
    lemma_two_digits(m);
    lemma_two_digits(d);
    lemma_two_digits(h);
    lemma_two_digits(mi);
    lemma_two_digits(s);
    lemma_time_text(h, mi, s);
    lemma_bytes(date);
    text::lemma_first_of(date, ' ', 'T');
    if text::first_of(date, ' ', 'T') is Some {
        let i = text::first_of(date, ' ', 'T')->0;
        assert(date[i] != ' ');
    }
    assert(age::looks_absolute(date));
    assert(short[0] == two_digits(h)[0] && short[short.len() - 1] == two_digits(mi)[1]);
    assert(long[0] == two_digits(h)[0] && long[long.len() - 1] == two_digits(s)[1]);
    lemma_written(date, sep, short);
    lemma_written(date, sep, long);
}

/// A date with a time behind it looks like one, and splits at the separator.
proof fn lemma_written(date: Seq<char>, sep: char, time: Seq<char>)
    requires
        is_date_part(date),
        date.len() == 10,
        date[4] == '-',
        forall|i: int| 0 <= i < 4 ==> text::is_digit(#[trigger] date[i]),
        sep == ' ' || sep == 'T',
        plain::has_no_margin(time),
    ensures
        age::looks_absolute(date + seq![sep] + time),
        age::date_and_time(date + seq![sep] + time) == (date, Some(time)),
        age::leading_year(date + seq![sep] + time) == age::leading_year(date),
{
    let s = date + seq![sep] + time;
    lemma_bytes(s);
    lemma_date_and_time(date, sep, time);
    text_laws::trimming_takes_the_margin(Seq::empty(), time, Seq::empty());
    assert(Seq::<char>::empty() + time + Seq::<char>::empty() =~= time);
    assert forall|i: int| 0 <= i < 4 implies text::is_digit(#[trigger] s[i]) by {
        assert(s[i] == date[i]);
    }
    assert(s[0] == date[0] && s[1] == date[1] && s[2] == date[2] && s[3] == date[3]);
}

/// Whether `p` can be a part of a date: it has no dash, no space and no `T` in it.
pub open spec fn is_part_of_date(p: Seq<char>) -> bool {
    !p.contains('-') && !p.contains(' ') && !p.contains('T')
}

/// A year of four digits.
pub open spec fn year_text(y: nat) -> Seq<char> {
    two_digits(y / 100) + two_digits(y)
}

/// The characters of a year.
proof fn lemma_year_text(y: nat, rest: Seq<char>)
    requires
        y < 10000,
    ensures
        year_text(y).len() == 4,
        is_part_of_date(year_text(y)),
        age::leading_year(year_text(y) + rest) == y,
        forall|i: int| 0 <= i < 4 ==> text::is_digit(#[trigger] (year_text(y) + rest)[i]),
{
    let yy = year_text(y);
    let s = yy + rest;
    lemma_two_digits(y / 100);
    lemma_two_digits(y % 100);
    assert(two_digits(y) == two_digits(y % 100)) by {
        assert((y / 10) % 10 == ((y % 100) / 10) % 10);
        assert(y % 10 == (y % 100) % 10);
    }
    assert(yy.len() == 4);
    assert(s[0] == two_digits(y / 100)[0] && s[1] == two_digits(y / 100)[1]);
    assert(s[2] == two_digits(y)[0] && s[3] == two_digits(y)[1]);
    assert forall|i: int| 0 <= i < 4 implies text::is_digit(#[trigger] s[i]) by {}
    assert forall|i: int| 0 <= i < 4 implies text::is_digit(#[trigger] yy[i]) by {
        assert(yy[i] == s[i]);
    }
}

/// A text has at least one piece.
proof fn lemma_some_piece(s: Seq<char>, sep: char)
    ensures
        text::split(s, sep).len() >= 1,
{
}

/// A part of a date has none of the characters that end it.
proof fn lemma_part_of_date(p: Seq<char>)
    requires
        is_part_of_date(p),
    ensures
        is_date_part(p),
{
    assert forall|i: int| 0 <= i < p.len() implies #[trigger] p[i] != ' ' && p[i] != 'T' by {
        assert(p.contains(p[i]));
    }
}

/// **A date is a year, a month and a day.** With a part that is no number it is
/// refused, and so it is with a time that is none. With fewer or more parts it is no
/// date at all.
pub proof fn date_is_a_year_a_month_and_a_day(
    y: nat,
    month: Seq<char>,
    day: Seq<char>,
    more: Seq<char>,
    sep: char,
    time: Seq<char>,
)
    requires
        y < 10000,
        is_part_of_date(month),
        is_part_of_date(day),
        is_date_part(more),
        month.len() + day.len() >= 4,
        sep == ' ' || sep == 'T',
        plain::has_no_margin(time),
    ensures
        ({
            let date = year_text(y) + seq!['-'] + (month + seq!['-'] + day);
            let m = text::unsigned_value(month, u32::MAX as int);
            let d = text::unsigned_value(day, u32::MAX as int);
            &&& age::absolute(date) == match (m, d) {
                (Err(cause), _) => Err(AbsoluteError::Month { part: month, cause }),
                (Ok(_), Err(cause)) => Err(AbsoluteError::Day { part: day, cause }),
                (Ok(m), Ok(d)) => read_as(
                    age::civil_time(y as i32, m as u32, d as u32, 0, 0, 0),
                ),
            }
            &&& age::absolute(date + seq![sep] + time) == match (m, d) {
                (Err(cause), _) => Err(AbsoluteError::Month { part: month, cause }),
                (Ok(_), Err(cause)) => Err(AbsoluteError::Day { part: day, cause }),
                (Ok(m), Ok(d)) => match age::time_of_day(time) {
                    Err(e) => Err(e),
                    Ok((h, mi, s)) => read_as(
                        age::civil_time(y as i32, m as u32, d as u32, h, mi, s),
                    ),
                },
            }
            &&& age::absolute(date + seq!['-'] + more) == Ok::<
                Option<int>,
                AbsoluteError<Seq<char>>,
            >(None)
            &&& age::absolute(year_text(y) + seq!['-'] + month) == Ok::<
                Option<int>,
                AbsoluteError<Seq<char>>,
            >(None)
        }),
{
    let yy = year_text(y);
    let md = month + seq!['-'] + day;
    let date = yy + seq!['-'] + md;
    let mdx = month + seq!['-'] + (day + seq!['-'] + more);
    let long = yy + seq!['-'] + mdx;
    let short = yy + seq!['-'] + month;
    lemma_year_text(y, seq!['-'] + md);
    lemma_year_text(y, seq!['-'] + mdx);
    lemma_year_text(y, seq!['-'] + month);
    assert(date =~= yy + (seq!['-'] + md));
    assert(long =~= yy + (seq!['-'] + mdx));
    assert(short =~= yy + (seq!['-'] + month));
    assert(date + seq!['-'] + more =~= long);
    assert(date[4] == '-' && long[4] == '-' && short[4] == '-');
    lemma_part_of_date(yy);
    lemma_part_of_date(month);
    lemma_part_of_date(day);
    assert(is_date_part(md));
    assert(is_date_part(date));
    assert(is_date_part(day + seq!['-'] + more));
    assert(is_date_part(mdx));
    assert(is_date_part(long));
    assert(is_date_part(short));
    text_laws::splitting_undoes_joining(yy, '-', md);
    text_laws::splitting_undoes_joining(month, '-', day);
    text_laws::text_without_separator_is_one_piece(day, '-');
    assert(text::split(date, '-') =~= seq![yy, month, day]);
    text_laws::splitting_undoes_joining(yy, '-', mdx);
    text_laws::splitting_undoes_joining(month, '-', day + seq!['-'] + more);
    text_laws::splitting_undoes_joining(day, '-', more);
    lemma_some_piece(more, '-');
    assert(text::split(long, '-').len() >= 4);
    text_laws::splitting_undoes_joining(yy, '-', month);
    text_laws::text_without_separator_is_one_piece(month, '-');
    assert(text::split(short, '-').len() == 2);
    lemma_bytes(date);
    lemma_no_time(date);
    lemma_no_time(long);
    lemma_no_time(short);
    assert(age::looks_absolute(date));
    // With a time behind it.
    let full = date + seq![sep] + time;
    lemma_bytes(full);
    lemma_date_and_time(date, sep, time);
    text_laws::trimming_takes_the_margin(Seq::empty(), time, Seq::empty());
    assert(Seq::<char>::empty() + time + Seq::<char>::empty() =~= time);
    assert forall|i: int| 0 <= i < 4 implies text::is_digit(#[trigger] full[i]) by {
        assert(full[i] == date[i]);
    }
    assert(full[0] == date[0] && full[1] == date[1] && full[2] == date[2] && full[3] == date[3]
        && full[4] == date[4]);
    assert(age::looks_absolute(full));
}

/// A text without a separator has no time.
proof fn lemma_no_time(s: Seq<char>)
    requires
        is_date_part(s),
    ensures
        age::date_and_time(s) == (s, None::<Seq<char>>),
{
    text::lemma_first_of(s, ' ', 'T');
    if text::first_of(s, ' ', 'T') is Some {
        let i = text::first_of(s, ' ', 'T')->0;
        assert(s[i] != ' ');
    }
}

/// **A text that does not begin like a date is no date, nor is one of fewer than ten
/// bytes.**
pub proof fn other_texts_are_no_dates(s: Seq<char>)
    ensures
        vstd::utf8::encode_utf8(s).len() < 10 ==> age::absolute(s) == Ok::<
            Option<int>,
            AbsoluteError<Seq<char>>,
        >(None),
        s.len() < 5 || s[4] != '-' ==> age::absolute(s) == Ok::<
            Option<int>,
            AbsoluteError<Seq<char>>,
        >(None),
        (exists|i: int|
            0 <= i < 4 && i < s.len() && ((#[trigger] s[i]) as int) < 48 || 0 <= i < 4 && i < s.len()
                && 57 < (#[trigger] s[i]) as int) ==> age::absolute(s) == Ok::<
            Option<int>,
            AbsoluteError<Seq<char>>,
        >(None),
{
    if exists|i: int|
        0 <= i < 4 && i < s.len() && ((#[trigger] s[i]) as int) < 48 || 0 <= i < 4 && i < s.len()
            && 57 < (#[trigger] s[i]) as int {
        let i = choose|i: int|
            0 <= i < 4 && i < s.len() && ((#[trigger] s[i]) as int) < 48 || 0 <= i < 4 && i
                < s.len() && 57 < (#[trigger] s[i]) as int;
        assert(!text::is_digit(s[i]));
        assert(!age::looks_absolute(s));
    }
}

/// **A time is an hour, a minute and perhaps a second.** With a part that is no number
/// it is refused, and so it is with fewer or more parts.
pub proof fn time_is_an_hour_a_minute_and_a_second(
    hour: Seq<char>,
    minute: Seq<char>,
    second: Seq<char>,
    more: Seq<char>,
)
    requires
        !hour.contains(':'),
        !minute.contains(':'),
        !second.contains(':'),
    ensures
        ({
            let h = text::unsigned_value(hour, u32::MAX as int);
            let m = text::unsigned_value(minute, u32::MAX as int);
            let s = text::unsigned_value(second, u32::MAX as int);
            let short = hour + seq![':'] + minute;
            let long = hour + seq![':'] + (minute + seq![':'] + second);
            let too_long = hour + seq![':'] + (minute + seq![':'] + (second + seq![':'] + more));
            &&& age::time_of_day(hour) == Err::<(u32, u32, u32), AbsoluteError<Seq<char>>>(
                AbsoluteError::Time { part: hour },
            )
            &&& age::time_of_day(too_long) == Err::<(u32, u32, u32), AbsoluteError<Seq<char>>>(
                AbsoluteError::Time { part: too_long },
            )
            &&& age::time_of_day(short) == match (h, m) {
                (Err(cause), _) => Err(AbsoluteError::Hour { cause }),
                (Ok(_), Err(cause)) => Err(AbsoluteError::Minute { cause }),
                (Ok(h), Ok(m)) => Ok::<(u32, u32, u32), AbsoluteError<Seq<char>>>(
                    (h as u32, m as u32, 0u32),
                ),
            }
            &&& age::time_of_day(long) == match (h, m, s) {
                (Err(cause), _, _) => Err(AbsoluteError::Hour { cause }),
                (Ok(_), Err(cause), _) => Err(AbsoluteError::Minute { cause }),
                (Ok(_), Ok(_), Err(cause)) => Err(AbsoluteError::Second { cause }),
                (Ok(h), Ok(m), Ok(s)) => Ok::<(u32, u32, u32), AbsoluteError<Seq<char>>>(
                    (h as u32, m as u32, s as u32),
                ),
            }
        }),
{
    let ms = minute + seq![':'] + second;
    let sx = second + seq![':'] + more;
    let msx = minute + seq![':'] + sx;
    text_laws::text_without_separator_is_one_piece(hour, ':');
    text_laws::text_without_separator_is_one_piece(minute, ':');
    text_laws::text_without_separator_is_one_piece(second, ':');
    text_laws::splitting_undoes_joining(hour, ':', minute);
    assert(text::split(hour + seq![':'] + minute, ':') =~= seq![hour, minute]);
    text_laws::splitting_undoes_joining(hour, ':', ms);
    text_laws::splitting_undoes_joining(minute, ':', second);
    assert(text::split(hour + seq![':'] + ms, ':') =~= seq![hour, minute, second]);
    text_laws::splitting_undoes_joining(hour, ':', msx);
    text_laws::splitting_undoes_joining(minute, ':', sx);
    text_laws::splitting_undoes_joining(second, ':', more);
    lemma_some_piece(more, ':');
    assert(text::split(hour + seq![':'] + msx, ':').len() >= 4);
}

/// Whether the unit that begins at `i` is written with the word `word`.
pub open spec fn is_word(s: Seq<char>, i: int, word: Seq<char>) -> bool {
    0 <= i && plain::is_at(s, word, i)
}

/// **Every unit has its seconds**: a minute 60, an hour 3600, a day 86400, a week seven
/// days, a month the twelfth part of a year, and a year 365 days and a quarter.
pub proof fn every_unit_has_its_seconds(s: Seq<char>, i: int)
    ensures
        is_word(s, i, "s"@) ==> age::unit_seconds(s, i) == 1,
        is_word(s, i, "mi"@) ==> age::unit_seconds(s, i) == 60,
        is_word(s, i, "h"@) ==> age::unit_seconds(s, i) == 3600,
        is_word(s, i, "d"@) ==> age::unit_seconds(s, i) == 86400,
        is_word(s, i, "w"@) ==> age::unit_seconds(s, i) == 7 * 86400,
        is_word(s, i, "mo"@) ==> age::unit_seconds(s, i) == 2630016,
        is_word(s, i, "M"@) ==> age::unit_seconds(s, i) == 2630016,
        is_word(s, i, "y"@) ==> age::unit_seconds(s, i) == 31557600,
        is_word(s, i, "ns"@) || is_word(s, i, "nanos"@) || is_word(s, i, "us"@) || is_word(
            s,
            i,
            "ms"@,
        ) || is_word(s, i, "millis"@) ==> age::is_fine_unit(s, i),
{
    reveal_strlit("s");
    reveal_strlit("mi");
    reveal_strlit("h");
    reveal_strlit("d");
    reveal_strlit("w");
    reveal_strlit("mo");
    reveal_strlit("M");
    reveal_strlit("y");
    reveal_strlit("ns");
    reveal_strlit("nanos");
    reveal_strlit("us");
    reveal_strlit("ms");
    reveal_strlit("millis");
    lemma_word(s, i, "s"@);
    lemma_word(s, i, "mi"@);
    lemma_word(s, i, "h"@);
    lemma_word(s, i, "d"@);
    lemma_word(s, i, "w"@);
    lemma_word(s, i, "mo"@);
    lemma_word(s, i, "M"@);
    lemma_word(s, i, "y"@);
    lemma_word(s, i, "ns"@);
    lemma_word(s, i, "nanos"@);
    lemma_word(s, i, "us"@);
    lemma_word(s, i, "ms"@);
    lemma_word(s, i, "millis"@);
}

/// The first letters of a word.
proof fn lemma_word(s: Seq<char>, i: int, word: Seq<char>)
    requires
        word.len() > 0,
    ensures
        is_word(s, i, word) ==> i < s.len() && s[i] == word[0],
        is_word(s, i, word) && word.len() > 1 ==> i + 1 < s.len() && s[i + 1] == word[1],
        is_word(s, i, word) && word.len() > 2 ==> i + 2 < s.len() && s[i + 2] == word[2],
{
    if is_word(s, i, word) {
        assert(s[i + 0] == word[0]);
        if word.len() > 1 {
            assert(s[i + 1] == word[1]);
        }
        if word.len() > 2 {
            assert(s[i + 2] == word[2]);
        }
    }
}

/// **A text that writes too much is not taken.** A number of units that come to more
/// seconds than 64 bits hold is refused, if a part below a second follows.
pub proof fn text_that_writes_too_much_is_not_taken(n: nat, rest: Seq<char>, at: int)
    requires
        rest.len() > 0,
        age::is_unit_letter(rest[0]),
        !age::is_fine_unit(text::decimal(n) + rest, text::decimal(n).len() as int),
        n * age::unit_seconds(text::decimal(n) + rest, text::decimal(n).len() as int) > u64::MAX,
        text::decimal(n).len() <= at < text::decimal(n).len() + rest.len(),
        age::is_fine_at(text::decimal(n) + rest, at),
    ensures
        age::may_overrun(text::decimal(n) + rest),
{
    let d = text::decimal(n);
    let s = d + rest;
    let k = d.len() as int;
    text::decimal_reads_back(n, n as int);
    let m: int = if n > u64::MAX {
        u64::MAX + 1
    } else {
        n as int
    };
    lemma_number_read(n, s);
    assert(age::seconds_from(s, 0, 0, false) == age::seconds_from(s, k, m, false));
    assert(s[k] == rest[0]);
    assert(text::is_digit(d[k - 1]));
    assert(s[k - 1] == d[k - 1]);
    assert(age::is_unit_start(s, k));
    let u = age::unit_seconds(s, k);
    age::lemma_seconds(s, k + 1, 0, false);
    assert(m * u > u64::MAX) by (nonlinear_arith)
        requires
            m == n || m == 0x1_0000_0000_0000_0000,
            n * u > u64::MAX,
            u >= 1,
    ;
    assert(age::span_seconds(s, k, m, false) == m * u);
}

/// A number in front of a text is read digit by digit.
proof fn lemma_number_read(n: nat, s: Seq<char>)
    requires
        text::decimal(n).is_prefix_of(s),
    ensures
        age::seconds_from(s, 0, 0, false) == age::seconds_from(
            s,
            text::decimal(n).len() as int,
            if n > u64::MAX {
                u64::MAX + 1
            } else {
                n as int
            },
            false,
        ),
    decreases n,
{
    let d = text::decimal(n);
    text::decimal_reads_back(n, n as int);
    let k = d.len() as int;
    assert(s[k - 1] == s.subrange(0, k)[k - 1]);
    assert(s[k - 1] == d[k - 1]);
    assert(text::is_digit(d[k - 1]));
    if n >= 10 {
        let init = text::decimal(n / 10);
        assert(d == init.push(text::digit_char((n % 10) as int)));
        assert(init =~= s.subrange(0, k - 1)) by {
            assert forall|i: int| 0 <= i < k - 1 implies init[i] == s[i] by {
                assert(s.subrange(0, k)[i] == d[i]);
            }
        }
        lemma_number_read(n / 10, s);
    }
}

/// **Results say what came of a text.** Each outcome shows in the result of its own
/// kind, and with what belongs to it.
pub proof fn results_say_what_came_of_a_text(
    t: Timestamp,
    e: AbsoluteError<String>,
    d: humantime::DurationError,
)
    ensures
        age::outcome_of(Ok(t)) == CutoffOutcome::At(t.nanos as int),
        age::outcome_of(Err(CutoffError::Empty)) == CutoffOutcome::Empty,
        age::outcome_of(Err(CutoffError::Absolute(e))) == CutoffOutcome::Absolute(e@),
        age::outcome_of(Err(CutoffError::Future)) == CutoffOutcome::Future,
        age::outcome_of(Err(CutoffError::NotADuration(d))) == CutoffOutcome::NotADuration,
        age::outcome_of(Err(CutoffError::TooFarPast)) == CutoffOutcome::TooFarPast,
        age::setting_of(Ok(None)) is None,
        age::setting_of(Ok(Some(t))) == Some(CutoffOutcome::At(t.nanos as int)),
        age::setting_of(Err(CutoffError::Future)) == Some(CutoffOutcome::Future),
        age::setting_of(Err(CutoffError::Absolute(e))) == Some(CutoffOutcome::Absolute(e@)),
        age::setting_of(Err(CutoffError::NotADuration(d))) == Some(CutoffOutcome::NotADuration),
        age::setting_of(Err(CutoffError::TooFarPast)) == Some(CutoffOutcome::TooFarPast),
        age::setting_of(Err(CutoffError::Empty)) == Some(CutoffOutcome::Empty),
        e matches AbsoluteError::Month { part, cause } ==> e@ == (AbsoluteError::Month {
            part: part@,
            cause,
        }),
        e matches AbsoluteError::Day { part, cause } ==> e@ == (AbsoluteError::Day {
            part: part@,
            cause,
        }),
        e matches AbsoluteError::Time { part } ==> e@ == (AbsoluteError::Time { part: part@ }),
        e matches AbsoluteError::Hour { cause } ==> e@ == (AbsoluteError::<Seq<char>>::Hour { cause }),
        e matches AbsoluteError::Minute { cause } ==> e@ == (AbsoluteError::<Seq<char>>::Minute {
            cause,
        }),
        e matches AbsoluteError::Second { cause } ==> e@ == (AbsoluteError::<Seq<char>>::Second {
            cause,
        }),
        e matches AbsoluteError::OutOfRange { year, month, day, hour, minute, second } ==> e@ == (
        AbsoluteError::<Seq<char>>::OutOfRange { year, month, day, hour, minute, second }),
        e is Before1970 ==> e@ == AbsoluteError::<Seq<char>>::Before1970,
{
}

/// **A max-age text is refused for what it writes beside ` ago` and white space**, and
/// only if it is no date.
pub proof fn refused_text_is_no_date(a: Seq<char>, t: Seq<char>, b: Seq<char>)
    requires
        plain::is_all_blank(a),
        plain::is_all_blank(b),
        plain::has_no_margin(t),
        !" ago"@.is_suffix_of(t),
    ensures
        age::is_overlong_text(a + t + b) <==> age::absolute(t) == Ok::<
            Option<int>,
            AbsoluteError<Seq<char>>,
        >(None) && age::may_overrun(t),
{
    text_laws::trimming_takes_the_margin(a, t, b);
}

} // verus!
