//! Parse user-supplied max-age strings into an absolute cutoff. Anything in the
//! project's `target/` whose time of invocation is *older than* the cutoff is
//! considered stale.
//!
//! Accepted formats (modeled loosely on journalctl `--since` / `--until`):
//!
//! * **Relative durations**, with optional trailing ` ago`:
//!   `"1 month"`, `"4 days ago"`, `"2 hours 30 minutes"`, `"36h"`,
//!   `"1d12h"`, `"90 minutes"`. Parsed by `humantime`. The "ago" suffix
//!   is purely a no-op marker for human friendliness.
//! * **Absolute UTC datetimes**:
//!   `"2025-02-21"` (whole day, midnight UTC),
//!   `"2025-02-21 13:00:00"`,
//!   `"2025-02-21T13:00:00"`.
//! * **Disabled**: the literal strings `"never"`, `"off"`, and `"0"` mean
//!   "disable the age check entirely".

use vstd::prelude::*;

use crate::civil::{self, days_from_civil};
use crate::text::{
    self, chars_in, chars_of, digit, find_first, read_u32, same_text, split_at_each, stands_at,
    string_of, trim_range, IntError,
};
use crate::time_laws;
use crate::timestamp::{Timestamp, NANOS_PER_SEC};

verus! {

broadcast use vstd::seq::group_seq_axioms;

/// `humantime::DurationError`, which says why a text is no duration.
#[verifier::external_type_specification]
#[verifier::external_body]
pub struct ExDurationError(humantime::DurationError);

/// The duration, in seconds and nanoseconds, that `humantime::parse_duration`
/// reads from a text.
pub uninterp spec fn humantime_duration(s: Seq<char>) -> Option<(u64, u32)>;

/// Whether `c` can stand in the name of a unit.
pub open spec fn is_unit_letter(c: char) -> bool {
    ('a' as int <= c as int <= 'z' as int) || ('A' as int <= c as int <= 'Z' as int) || c == '\u{b5}'
}

/// Whether a unit below a second begins at `i`: `ns`, `us`, `ms` and the like,
/// `nanos` and `millis`.
pub open spec fn is_fine_unit(s: Seq<char>, i: int) -> bool {
    i + 1 < s.len() && {
        ||| s[i] == 'n' && (s[i + 1] == 's' || s[i + 1] == 'a')
        ||| (s[i] == 'u' || s[i] == '\u{b5}' || s[i] == 'm') && s[i + 1] == 's'
        ||| s[i] == 'm' && s[i + 1] == 'i' && i + 2 < s.len() && s[i + 2] == 'l'
    }
}

/// How many seconds the unit that begins at `i` has at most. The longest unit is
/// the year of 365.25 days.
pub open spec fn unit_seconds(s: Seq<char>, i: int) -> int {
    if s[i] == 's' {
        1
    } else if s[i] == 'm' && !(i + 1 < s.len() && s[i + 1] == 'o') {
        60
    } else if s[i] == 'h' {
        3600
    } else if s[i] == 'd' {
        86400
    } else if s[i] == 'w' {
        604800
    } else if s[i] == 'm' || s[i] == 'M' {
        2630016
    } else {
        31557600
    }
}

/// Whether a unit begins at `i`.
pub open spec fn is_unit_start(s: Seq<char>, i: int) -> bool {
    is_unit_letter(s[i]) && !(i > 0 && is_unit_letter(s[i - 1]))
}

/// The number `n` with one more digit `c`. What does not fit 64 bits stands as one
/// more than they hold.
pub open spec fn next_number(n: int, c: char) -> int {
    if 10 * n + text::digit_value(c) > u64::MAX {
        u64::MAX + 1
    } else {
        10 * n + text::digit_value(c)
    }
}

/// How many seconds `n` of the unit that begins at `i` have at most, or with a
/// fraction `n` and a part of one more. A unit below a second counts nanoseconds
/// in 64 bits.
pub open spec fn span_seconds(s: Seq<char>, i: int, n: int, has_fraction: bool) -> int {
    if is_fine_unit(s, i) {
        18_446_744_074
    } else if has_fraction {
        (n + 1) * unit_seconds(s, i)
    } else {
        n * unit_seconds(s, i)
    }
}

/// How many seconds the text `s` writes from `i` on at most, where `n` is the
/// number read so far, and `in_fraction` tells whether it has a decimal point
/// behind it.
pub open spec fn seconds_from(s: Seq<char>, i: int, n: int, in_fraction: bool) -> int
    decreases s.len() - i,
{
    if i >= s.len() {
        0
    } else if text::is_digit(s[i]) {
        seconds_from(
            s,
            i + 1,
            if in_fraction {
                n
            } else {
                next_number(n, s[i])
            },
            in_fraction,
        )
    } else if is_unit_start(s, i) {
        span_seconds(s, i, n, in_fraction) + seconds_from(s, i + 1, 0, false)
    } else {
        seconds_from(s, i + 1, n, in_fraction || s[i] == '.')
    }
}

/// Whether `s` may speak of less than a second at `i`.
pub open spec fn is_fine_at(s: Seq<char>, i: int) -> bool {
    s[i] == '.' || is_fine_unit(s, i)
}

/// Whether a text may write both a part below a second and so many seconds that
/// they do not fit 64 bits.
pub open spec fn may_overrun(s: Seq<char>) -> bool {
    seconds_from(s, 0, 0, false) > u64::MAX && exists|i: int|
        0 <= i < s.len() && #[trigger] is_fine_at(s, i)
}

/// `humantime::parse_duration` reads a text such as `2 hours 30 minutes`. The
/// result, a duration or an error, depends on the text alone; the nanoseconds
/// are less than a second, and a text with a `-` in it is no duration. It panics
/// where the spans read so far come to exactly as many seconds as 64 bits hold
/// and, as nanoseconds, one second more. That takes a part below a second, and
/// spans of more seconds than 64 bits hold.
#[verifier::external_body]
fn parse_duration(s: &str) -> (r: Result<(u64, u32), humantime::DurationError>)
    requires
        !may_overrun(s@),
    ensures
        match r {
            Ok(d) => humantime_duration(s@) == Some(d) && d.1 < 1_000_000_000 && !s@.contains('-'),
            Err(_) => humantime_duration(s@) is None,
        },
{
    match humantime::parse_duration(s) {
        Ok(d) => Ok((d.as_secs(), d.subsec_nanos())),
        Err(e) => Err(e),
    }
}

/// `std::time::SystemTime::now` reads the system's clock: the time since the
/// Unix epoch, or as an error the time until it. Of the time itself nothing is
/// said; its nanoseconds are less than a second.
#[verifier::external_body]
fn clock() -> (r: Result<(u64, u32), (u64, u32)>)
    ensures
        match r {
            Ok(d) => d.1 < 1_000_000_000,
            Err(d) => d.1 < 1_000_000_000,
        },
{
    match std::time::SystemTime::now().duration_since(std::time::UNIX_EPOCH) {
        Ok(d) => Ok((d.as_secs(), d.subsec_nanos())),
        Err(e) => Err((e.duration().as_secs(), e.duration().subsec_nanos())),
    }
}

/// Whether `reading` is one that the clock can give: whole seconds, and
/// nanoseconds that are less than a second.
pub open spec fn is_reading(reading: Result<(u64, u32), (u64, u32)>) -> bool {
    match reading {
        Ok((_, nanos)) => nanos < NANOS_PER_SEC,
        Err((_, nanos)) => nanos < NANOS_PER_SEC,
    }
}

/// The point in time, in nanoseconds since the epoch, that a reading of the clock
/// stands for: so long after the epoch, or as an error so long before it.
pub open spec fn reading_time(reading: Result<(u64, u32), (u64, u32)>) -> int {
    match reading {
        Ok((secs, nanos)) => secs * NANOS_PER_SEC + nanos,
        Err((secs, nanos)) => -(secs * NANOS_PER_SEC + nanos),
    }
}

/// The point in time that a reading of the clock stands for.
pub fn time_of_reading(reading: Result<(u64, u32), (u64, u32)>) -> (r: Timestamp)
    ensures
        r@ == reading_time(reading),
{
    match reading {
        Ok((secs, nanos)) => Timestamp::after_epoch(secs, nanos),
        Err((secs, nanos)) => Timestamp::before_epoch(secs, nanos),
    }
}

/// The current time: that of a reading of the clock, whatever it reads.
fn current_time() -> (r: Timestamp)
    ensures
        exists|reading: Result<(u64, u32), (u64, u32)>|
            is_reading(reading) && r@ == #[trigger] reading_time(reading),
{
    let reading = clock();
    assert(is_reading(reading));
    time_of_reading(reading)
}

/// Whether `s` asks for no age check.
pub open spec fn disables(s: Seq<char>) -> bool {
    let t = text::trimmed(s);
    t == "never"@ || t == "off"@ || t == "0"@ || t.len() == 0
}

/// True if `s` is one of the documented "disable" sentinels.
pub fn is_disable_sentinel(s: &str) -> (r: bool)
    ensures
        r == disables(s@),
{
    let v = chars_of(s);
    assert(v@.subrange(0, v@.len() as int) =~= v@);
    let t = trim_range(&v, 0, v.len());
    assert(t@.subrange(0, t@.len() as int) =~= t@);
    let word = string_of(&t, 0, t.len());
    let word = word.as_str();
    same_text(word, "never") || same_text(word, "off") || same_text(word, "0") || t.len() == 0
}

/// Why an absolute date or datetime is not accepted. The texts are `T`.
#[derive(Debug)]
pub enum AbsoluteError<T> {
    /// The month is no number.
    Month { part: T, cause: IntError },
    /// The day is no number.
    Day { part: T, cause: IntError },
    /// The time has not two or three parts.
    Time { part: T },
    /// The hour is no number.
    Hour { cause: IntError },
    /// The minute is no number.
    Minute { cause: IntError },
    /// The second is no number.
    Second { cause: IntError },
    /// There is no such date or time.
    OutOfRange { year: i32, month: u32, day: u32, hour: u32, minute: u32, second: u32 },
    /// The date lies before 1970.
    Before1970,
}

impl View for AbsoluteError<String> {
    type V = AbsoluteError<Seq<char>>;

    open spec fn view(&self) -> AbsoluteError<Seq<char>> {
        match *self {
            AbsoluteError::Month { part, cause } => AbsoluteError::Month { part: part@, cause },
            AbsoluteError::Day { part, cause } => AbsoluteError::Day { part: part@, cause },
            AbsoluteError::Time { part } => AbsoluteError::Time { part: part@ },
            AbsoluteError::Hour { cause } => AbsoluteError::Hour { cause },
            AbsoluteError::Minute { cause } => AbsoluteError::Minute { cause },
            AbsoluteError::Second { cause } => AbsoluteError::Second { cause },
            AbsoluteError::OutOfRange {
                year,
                month,
                day,
                hour,
                minute,
                second,
            } => AbsoluteError::OutOfRange { year, month, day, hour, minute, second },
            AbsoluteError::Before1970 => AbsoluteError::Before1970,
        }
    }
}

/// Whether a civil date and time is accepted. The day is not held against the
/// length of its month.
pub open spec fn in_range(month: int, day: int, hour: int, minute: int, second: int) -> bool {
    1 <= month <= 12 && 1 <= day <= 31 && 0 <= hour < 24 && 0 <= minute < 60 && 0 <= second < 60
}

/// The nanoseconds since the epoch of a civil date and time in UTC.
pub open spec fn civil_time(
    year: i32,
    month: u32,
    day: u32,
    hour: u32,
    minute: u32,
    second: u32,
) -> Result<int, AbsoluteError<Seq<char>>> {
    let at = civil::epoch_second(
        year as int,
        month as int,
        day as int,
        hour as int,
        minute as int,
        second as int,
    );
    if !in_range(month as int, day as int, hour as int, minute as int, second as int) {
        Err(AbsoluteError::OutOfRange { year, month, day, hour, minute, second })
    } else if at < 0 {
        Err(AbsoluteError::Before1970)
    } else {
        Ok(at * NANOS_PER_SEC)
    }
}

/// Convert a UTC civil date/time to a point in time.
pub fn civil_to_systemtime(
    year: i32,
    month: u32,
    day: u32,
    hour: u32,
    minute: u32,
    second: u32,
) -> (r: Result<Timestamp, AbsoluteError<String>>)
    ensures
        match r {
            Ok(t) => civil_time(year, month, day, hour, minute, second) == Ok::<
                int,
                AbsoluteError<Seq<char>>,
            >(t@),
            Err(e) => civil_time(year, month, day, hour, minute, second) == Err::<
                int,
                AbsoluteError<Seq<char>>,
            >(e@),
        },
{
    if month < 1 || month > 12 || day < 1 || day > 31 || hour >= 24 || minute >= 60 || second
        >= 60 {
        return Err(AbsoluteError::OutOfRange { year, month, day, hour, minute, second });
    }
    let days: i64 = days_from_civil(year, month, day);
    let secs: i64 = days * 86400 + (hour as i64) * 3600 + (minute as i64) * 60 + (second as i64);
    if secs < 0 {
        return Err(AbsoluteError::Before1970);
    }
    Ok(Timestamp::after_epoch(secs as u64, 0))
}

/// Whether `s` begins like `2025-` and has at least ten bytes.
pub open spec fn looks_absolute(s: Seq<char>) -> bool {
    &&& vstd::utf8::encode_utf8(s).len() >= 10
    &&& s.len() >= 5
    &&& forall|i: int| 0 <= i < 4 ==> text::is_digit(#[trigger] s[i])
    &&& s[4] == '-'
}

/// The year that the first four digits of `s` write.
pub open spec fn leading_year(s: Seq<char>) -> i32 {
    (1000 * text::digit_value(s[0]) + 100 * text::digit_value(s[1]) + 10 * text::digit_value(s[2])
        + text::digit_value(s[3])) as i32
}

/// The hour, minute and second that a time of day writes.
pub open spec fn time_of_day(s: Seq<char>) -> Result<(u32, u32, u32), AbsoluteError<Seq<char>>> {
    let parts = text::split(s, ':');
    if parts.len() < 2 || parts.len() > 3 {
        Err(AbsoluteError::Time { part: s })
    } else {
        match text::unsigned_value(parts[0], u32::MAX as int) {
            Err(cause) => Err(AbsoluteError::Hour { cause }),
            Ok(hour) => match text::unsigned_value(parts[1], u32::MAX as int) {
                Err(cause) => Err(AbsoluteError::Minute { cause }),
                Ok(minute) => if parts.len() == 2 {
                    Ok((hour as u32, minute as u32, 0u32))
                } else {
                    match text::unsigned_value(parts[2], u32::MAX as int) {
                        Err(cause) => Err(AbsoluteError::Second { cause }),
                        Ok(second) => Ok((hour as u32, minute as u32, second as u32)),
                    }
                },
            },
        }
    }
}

/// The date part and the time part of an absolute datetime, which the first
/// space or `T` separates.
pub open spec fn date_and_time(s: Seq<char>) -> (Seq<char>, Option<Seq<char>>) {
    match text::first_of(s, ' ', 'T') {
        Some(i) => (s.take(i), Some(text::trimmed(s.skip(i + 1)))),
        None => (s, None),
    }
}

/// The point in time that an absolute date or datetime writes, in nanoseconds
/// since the epoch; `None` if `s` doesn't look like one at all.
pub open spec fn absolute(s: Seq<char>) -> Result<Option<int>, AbsoluteError<Seq<char>>> {
    let (date, time) = date_and_time(s);
    let parts = text::split(date, '-');
    if !looks_absolute(s) || parts.len() != 3 {
        Ok(None)
    } else {
        match text::unsigned_value(parts[1], u32::MAX as int) {
            Err(cause) => Err(AbsoluteError::Month { part: parts[1], cause }),
            Ok(month) => match text::unsigned_value(parts[2], u32::MAX as int) {
                Err(cause) => Err(AbsoluteError::Day { part: parts[2], cause }),
                Ok(day) => match (match time {
                    Some(time) => time_of_day(time),
                    None => Ok((0u32, 0u32, 0u32)),
                }) {
                    Err(e) => Err(e),
                    Ok((hour, minute, second)) => match civil_time(
                        leading_year(s),
                        month as u32,
                        day as u32,
                        hour,
                        minute,
                        second,
                    ) {
                        Err(e) => Err(e),
                        Ok(at) => Ok(Some(at)),
                    },
                },
            },
        }
    }
}

/// Reads a time of day.
fn read_time(v: &Vec<char>) -> (r: Result<(u32, u32, u32), AbsoluteError<String>>)
    ensures
        match r {
            Ok(t) => time_of_day(v@) == Ok::<(u32, u32, u32), AbsoluteError<Seq<char>>>(t),
            Err(e) => time_of_day(v@) == Err::<(u32, u32, u32), AbsoluteError<Seq<char>>>(e@),
        },
{
    let parts = split_at_each(v, ':');
    let ghost pieces = text::split(v@, ':');
    assert(text::texts(parts@).len() == parts@.len());
    if parts.len() < 2 || parts.len() > 3 {
        assert(v@.subrange(0, v@.len() as int) =~= v@);
        return Err(AbsoluteError::Time { part: string_of(v, 0, v.len()) });
    }
    assert(pieces[0] == parts@[0]@);
    assert(pieces[1] == parts@[1]@);
    let hour: u32 = match read_u32(&parts[0]) {
        Ok(n) => n,
        Err(cause) => {
            return Err(AbsoluteError::Hour { cause });
        },
    };
    let minute: u32 = match read_u32(&parts[1]) {
        Ok(n) => n,
        Err(cause) => {
            return Err(AbsoluteError::Minute { cause });
        },
    };
    if parts.len() == 2 {
        return Ok((hour, minute, 0));
    }
    assert(pieces[2] == parts@[2]@);
    match read_u32(&parts[2]) {
        Ok(second) => Ok((hour, minute, second)),
        Err(cause) => Err(AbsoluteError::Second { cause }),
    }
}

/// Try to parse `s` as an absolute UTC date or datetime. Returns `Ok(None)`
/// if it doesn't look like an absolute timestamp at all (so the caller can
/// fall through to the duration parser).
pub fn try_parse_absolute(s: &str) -> (r: Result<Option<Timestamp>, AbsoluteError<String>>)
    ensures
        match r {
            Ok(Some(t)) => absolute(s@) == Ok::<Option<int>, AbsoluteError<Seq<char>>>(Some(t@)),
            Ok(None) => absolute(s@) == Ok::<Option<int>, AbsoluteError<Seq<char>>>(None),
            Err(e) => absolute(s@) == Err::<Option<int>, AbsoluteError<Seq<char>>>(e@),
        },
{
    // Quick prefilter: must start with a 4-digit year and a `-`.
    let v = chars_of(s);
    if s.as_bytes().len() < 10 || v.len() < 5 || !digit(v[0]) || !digit(v[1]) || !digit(v[2])
        || !digit(v[3]) || v[4] != '-' {
        return Ok(None);
    }
    assert(looks_absolute(s@));
    // Split date / time on either ' ' or 'T'.
    assert(v@.skip(0) =~= v@);
    let (date, time): (Vec<char>, Option<Vec<char>>) = match find_first(&v, 0, ' ', 'T') {
        Some(i) => {
            assert(v@.subrange(0, i as int) =~= v@.take(i as int));
            assert(v@.subrange(i + 1, v@.len() as int) =~= v@.skip(i + 1));
            (chars_in(&v, 0, i), Some(trim_range(&v, i + 1, v.len())))
        },
        None => {
            assert(v@.subrange(0, v@.len() as int) =~= v@);
            (chars_in(&v, 0, v.len()), None)
        },
    };
    let parts = split_at_each(&date, '-');
    let ghost pieces = text::split(date@, '-');
    assert(text::texts(parts@).len() == parts@.len());
    if parts.len() != 3 {
        return Ok(None);
    }
    assert(pieces[1] == parts@[1]@);
    assert(pieces[2] == parts@[2]@);
    let year: i32 = 1000 * (v[0] as i32 - 48) + 100 * (v[1] as i32 - 48) + 10 * (v[2] as i32 - 48)
        + (v[3] as i32 - 48);
    let month: u32 = match read_u32(&parts[1]) {
        Ok(n) => n,
        Err(cause) => {
            let part = string_of(&parts[1], 0, parts[1].len());
            assert(part@ =~= parts@[1]@);
            return Err(AbsoluteError::Month { part, cause });
        },
    };
    let day: u32 = match read_u32(&parts[2]) {
        Ok(n) => n,
        Err(cause) => {
            let part = string_of(&parts[2], 0, parts[2].len());
            assert(part@ =~= parts@[2]@);
            return Err(AbsoluteError::Day { part, cause });
        },
    };
    let (hour, minute, second): (u32, u32, u32) = match &time {
        None => (0, 0, 0),
        Some(time) => match read_time(time) {
            Ok(t) => t,
            Err(e) => {
                return Err(e);
            },
        },
    };
    match civil_to_systemtime(year, month, day, hour, minute, second) {
        Ok(t) => Ok(Some(t)),
        Err(e) => Err(e),
    }
}

/// `t` without a cosmetic ` ago` at the end.
pub open spec fn duration_part(t: Seq<char>) -> Seq<char> {
    if " ago"@.is_suffix_of(t) {
        text::trimmed(t.take(t.len() - " ago"@.len()))
    } else {
        t
    }
}

/// The earliest point in time that the system's clock type holds: its seconds
/// are 64 bits.
pub const EARLIEST: i128 = -9_223_372_036_854_775_808_000_000_000;

/// What becomes of a max-age text.
pub enum CutoffOutcome {
    /// The cutoff, in nanoseconds since the epoch.
    At(int),
    /// There is no text.
    Empty,
    /// The date or datetime is not acceptable.
    Absolute(AbsoluteError<Seq<char>>),
    /// The date or datetime is yet to come.
    Future,
    /// The text is no duration.
    NotADuration,
    /// The duration reaches back too far.
    TooFarPast,
}

/// What becomes of the max-age text `input` at the time `now`.
pub open spec fn cutoff_outcome(input: Seq<char>, now: int) -> CutoffOutcome {
    let t = text::trimmed(input);
    if t.len() == 0 {
        CutoffOutcome::Empty
    } else {
        match absolute(t) {
            Err(e) => CutoffOutcome::Absolute(e),
            Ok(Some(at)) => if at > now {
                CutoffOutcome::Future
            } else {
                CutoffOutcome::At(at)
            },
            Ok(None) => relative_outcome(humantime_duration(duration_part(t)), now),
        }
    }
}

/// What becomes of a duration, read or not, at the time `now`.
pub open spec fn relative_outcome(duration: Option<(u64, u32)>, now: int) -> CutoffOutcome {
    match duration {
        None => CutoffOutcome::NotADuration,
        Some((secs, nanos)) => {
            let at = now - (secs * NANOS_PER_SEC + nanos);
            if at < EARLIEST {
                CutoffOutcome::TooFarPast
            } else {
                CutoffOutcome::At(at)
            }
        },
    }
}

/// Whether the max-age text `input` is no absolute datetime, and one on which
/// `humantime` may overrun its numbers.
pub open spec fn is_overlong_text(input: Seq<char>) -> bool {
    let t = text::trimmed(input);
    absolute(t) == Ok::<Option<int>, AbsoluteError<Seq<char>>>(None) && may_overrun(
        duration_part(t),
    )
}

/// Whether the max-age text `input` is a duration, with no ` ago` behind it.
pub open spec fn is_bare_duration(input: Seq<char>) -> bool {
    let t = text::trimmed(input);
    &&& t.len() > 0
    &&& absolute(t) == Ok::<Option<int>, AbsoluteError<Seq<char>>>(None)
    &&& !" ago"@.is_suffix_of(t)
    &&& humantime_duration(t) is Some
}

/// Why a max-age text gives no cutoff.
#[derive(Debug)]
pub enum CutoffError {
    /// There is no text.
    Empty,
    /// The date or datetime is not acceptable.
    Absolute(AbsoluteError<String>),
    /// The date or datetime is yet to come.
    Future,
    /// The text is no duration.
    NotADuration(humantime::DurationError),
    /// The duration reaches back too far.
    TooFarPast,
}

/// What a result says.
pub open spec fn outcome_of(r: Result<Timestamp, CutoffError>) -> CutoffOutcome {
    match r {
        Ok(t) => CutoffOutcome::At(t@),
        Err(CutoffError::Empty) => CutoffOutcome::Empty,
        Err(CutoffError::Absolute(e)) => CutoffOutcome::Absolute(e@),
        Err(CutoffError::Future) => CutoffOutcome::Future,
        Err(CutoffError::NotADuration(_)) => CutoffOutcome::NotADuration,
        Err(CutoffError::TooFarPast) => CutoffOutcome::TooFarPast,
    }
}

/// `s` without the white space at either end.
fn trim(s: &str) -> (r: String)
    ensures
        r@ == text::trimmed(s@),
{
    let v = chars_of(s);
    assert(v@.subrange(0, v@.len() as int) =~= v@);
    let t = trim_range(&v, 0, v.len());
    assert(t@.subrange(0, t@.len() as int) =~= t@);
    string_of(&t, 0, t.len())
}

/// `t` without a cosmetic ` ago` at the end.
fn strip_ago(t: &str) -> (r: String)
    ensures
        r@ == duration_part(t@),
{
    let v = chars_of(t);
    let suffix = chars_of(" ago");
    if suffix.len() <= v.len() {
        let at: usize = v.len() - suffix.len();
        proof {
            let tail = v@.skip(at as int);
            assert(tail.subrange(0, suffix@.len() as int) =~= v@.subrange(
                at as int,
                v@.len() as int,
            ));
            assert(v@.subrange(0, at as int) =~= v@.take(at as int));
        }
        if stands_at(&v, at, &suffix) {
            let body = trim_range(&v, 0, at);
            assert(body@.subrange(0, body@.len() as int) =~= body@);
            return string_of(&body, 0, body.len());
        }
    }
    t.to_owned()
}

/// Whether `c` can stand in the name of a unit.
fn unit_letter(c: char) -> (r: bool)
    ensures
        r == is_unit_letter(c),
{
    ('a' <= c && c <= 'z') || ('A' <= c && c <= 'Z') || c == '\u{b5}'
}

/// Whether a unit below a second begins at `i`.
fn fine_unit(v: &Vec<char>, i: usize) -> (r: bool)
    requires
        i <= v.len(),
    ensures
        r == is_fine_unit(v@, i as int),
{
    if v.len() - i < 2 {
        return false;
    }
    let c = v[i];
    let d = v[i + 1];
    (c == 'n' && (d == 's' || d == 'a')) || ((c == 'u' || c == '\u{b5}' || c == 'm') && d == 's') || (
    c == 'm' && d == 'i' && v.len() - i > 2 && v[i + 2] == 'l')
}

/// Whether `humantime` may overrun its numbers on a text.
fn overruns(s: &str) -> (r: bool)
    ensures
        r == may_overrun(s@),
{
    let v = chars_of(s);
    speaks_finely(&v) && writes_too_many_seconds(&v)
}

/// Whether a text may speak of less than a second.
fn speaks_finely(v: &Vec<char>) -> (r: bool)
    ensures
        r == exists|i: int| 0 <= i < v@.len() && #[trigger] is_fine_at(v@, i),
{
    let mut i: usize = 0;
    while i < v.len()
        invariant
            i <= v.len(),
            forall|k: int| 0 <= k < i ==> !#[trigger] is_fine_at(v@, k),
        decreases v.len() - i,
    {
        if v[i] == '.' || fine_unit(v, i) {
            assert(is_fine_at(v@, i as int));
            return true;
        }
        i = i + 1;
    }
    false
}

/// The seconds of a text are not negative.
pub proof fn lemma_seconds(s: Seq<char>, i: int, n: int, in_fraction: bool)
    requires
        0 <= i,
        0 <= n,
    ensures
        seconds_from(s, i, n, in_fraction) >= 0,
    decreases s.len() - i,
{
    if i < s.len() {
        if text::is_digit(s[i]) {
            lemma_seconds(
                s,
                i + 1,
                if in_fraction {
                    n
                } else {
                    next_number(n, s[i])
                },
                in_fraction,
            );
        } else if is_unit_start(s, i) {
            lemma_seconds(s, i + 1, 0, false);
            lemma_span(s, i, n, in_fraction);
        } else {
            lemma_seconds(s, i + 1, n, in_fraction || s[i] == '.');
        }
    }
}

/// The seconds of a span are not negative, and not more than in years.
pub proof fn lemma_span(s: Seq<char>, i: int, n: int, has_fraction: bool)
    requires
        0 <= n,
    ensures
        0 <= span_seconds(s, i, n, has_fraction) <= 18_446_744_074 + (n + 1) * 31557600,
{
    let u = unit_seconds(s, i);
    assert(0 <= n * u <= (n + 1) * u <= (n + 1) * 31557600) by (nonlinear_arith)
        requires
            0 <= n,
            1 <= u <= 31557600,
    ;
}

/// How many seconds the unit that begins at `i` has at most.
fn seconds_of_unit(v: &Vec<char>, i: usize) -> (r: u128)
    requires
        i < v.len(),
    ensures
        r == unit_seconds(v@, i as int),
        1 <= r <= 31557600,
{
    let c = v[i];
    if c == 's' {
        1
    } else if c == 'm' && !(v.len() - i > 1 && v[i + 1] == 'o') {
        60
    } else if c == 'h' {
        3600
    } else if c == 'd' {
        86400
    } else if c == 'w' {
        604800
    } else if c == 'm' || c == 'M' {
        2630016
    } else {
        31557600
    }
}

/// Whether a text may write more seconds than 64 bits hold.
fn writes_too_many_seconds(v: &Vec<char>) -> (r: bool)
    ensures
        r == (seconds_from(v@, 0, 0, false) > u64::MAX),
{
    let most: u128 = u64::MAX as u128;
    let mut total: u128 = 0;
    let mut n: u128 = 0;
    let mut in_fraction = false;
    let mut i: usize = 0;
    while i < v.len()
        invariant
            i <= v.len(),
            most == u64::MAX,
            total <= most,
            n <= most + 1,
            total + seconds_from(v@, i as int, n as int, in_fraction) == seconds_from(
                v@,
                0,
                0,
                false,
            ),
        decreases v.len() - i,
    {
        let c = v[i];
        if digit(c) {
            if !in_fraction {
                let next: u128 = 10 * n + (c as u128 - 48);
                n = if next > most {
                    most + 1
                } else {
                    next
                };
            }
        } else if unit_letter(c) && !(i > 0 && unit_letter(v[i - 1])) {
            let unit: u128 = seconds_of_unit(v, i);
            let count: u128 = if in_fraction {
                n + 1
            } else {
                n
            };
            assert(0 <= count * unit <= 0x1_0000_0000_0000_0001 * 31557600) by (nonlinear_arith)
                requires
                    0 <= count <= 0x1_0000_0000_0000_0001,
                    1 <= unit <= 31557600,
            ;
            let span: u128 = if fine_unit(v, i) {
                18_446_744_074
            } else {
                count * unit
            };
            assert(span == span_seconds(v@, i as int, n as int, in_fraction));
            total = total + span;
            if total > most {
                proof {
                    lemma_seconds(v@, i + 1, 0, false);
                }
                return true;
            }
            n = 0;
            in_fraction = false;
        } else if c == '.' {
            in_fraction = true;
        }
        i = i + 1;
    }
    false
}

/// Whether a max-age text is one that `parse_cutoff` does not take: no absolute
/// datetime, but more seconds than may fit 64 bits and a part below a second.
pub fn is_overlong(input: &str) -> (r: bool)
    ensures
        r == is_overlong_text(input@),
{
    let trimmed = trim(input);
    match try_parse_absolute(trimmed.as_str()) {
        Ok(None) => overruns(strip_ago(trimmed.as_str()).as_str()),
        _ => false,
    }
}

/// The cutoff that a duration, read or not, gives at the time `now`.
pub fn relative_cutoff(
    duration: Result<(u64, u32), humantime::DurationError>,
    now: Timestamp,
) -> (r: Result<Timestamp, CutoffError>)
    ensures
        outcome_of(r) == relative_outcome(
            match duration {
                Ok(d) => Some(d),
                Err(_) => None,
            },
            now@,
        ),
        duration matches Err(e) ==> r == Err::<Timestamp, CutoffError>(
            CutoffError::NotADuration(e),
        ),
{
    match duration {
        Err(e) => Err(CutoffError::NotADuration(e)),
        Ok((secs, nanos)) => {
            let age = Timestamp::after_epoch(secs, nanos);
            match now.nanos.checked_sub(age.nanos) {
                Some(at) => if at < EARLIEST {
                    Err(CutoffError::TooFarPast)
                } else {
                    Ok(Timestamp { nanos: at })
                },
                None => Err(CutoffError::TooFarPast),
            }
        },
    }
}

/// The cutoff that a max-age text gives at the time `now`. Anything strictly
/// older than it should be considered stale by the caller. A duration gives the
/// same with ` ago` behind it.
pub fn parse_cutoff_at(input: &str, now: Timestamp) -> (r: Result<Timestamp, CutoffError>)
    requires
        !is_overlong_text(input@),
    ensures
        outcome_of(r) == cutoff_outcome(input@, now@),
        is_bare_duration(input@) ==> !is_overlong_text(input@ + " ago"@) && cutoff_outcome(
            input@ + " ago"@,
            now@,
        ) == outcome_of(r),
{
    let trimmed = trim(input);
    if trimmed.as_str().is_empty() {
        return Err(CutoffError::Empty);
    }
    // Try absolute first — only matches "YYYY-MM-DD..." style strings, so
    // it can't accidentally swallow durations.
    match try_parse_absolute(trimmed.as_str()) {
        Err(e) => Err(CutoffError::Absolute(e)),
        Ok(Some(at)) => if at.nanos > now.nanos {
            Err(CutoffError::Future)
        } else {
            Ok(at)
        },
        Ok(None) => {
            // Relative duration. Strip the cosmetic " ago" suffix if present.
            let body = strip_ago(trimmed.as_str());
            let duration = parse_duration(body.as_str());
            proof {
                if is_bare_duration(input@) {
                    assert(!time_laws::begins_like_a_date(body@)) by {
                        if time_laws::begins_like_a_date(body@) {
                            assert(body@.contains(body@[4]));
                        }
                    }
                    time_laws::ago_is_cosmetic(input@, now@);
                }
            }
            relative_cutoff(duration, now)
        },
    }
}

/// Parse the user input and return an absolute cutoff, counted from the current
/// time. Anything strictly older than it should be considered stale by the
/// caller. A duration gives the same with ` ago` behind it.
pub fn parse_cutoff(input: &str) -> (r: Result<Timestamp, CutoffError>)
    requires
        !is_overlong_text(input@),
    ensures
        exists|reading: Result<(u64, u32), (u64, u32)>|
            is_reading(reading) && outcome_of(r) == cutoff_outcome(
                input@,
                #[trigger] reading_time(reading),
            ) && (is_bare_duration(input@) ==> cutoff_outcome(
                input@ + " ago"@,
                reading_time(reading),
            ) == outcome_of(r)),
{
    let now = current_time();
    parse_cutoff_at(input, now)
}

/// What becomes of a max-age setting at the time `now`: `None` where it disables
/// the age check.
pub open spec fn setting_outcome(input: Seq<char>, now: int) -> Option<CutoffOutcome> {
    if disables(input) {
        None
    } else {
        Some(cutoff_outcome(input, now))
    }
}

/// What a result says.
pub open spec fn setting_of(r: Result<Option<Timestamp>, CutoffError>) -> Option<CutoffOutcome> {
    match r {
        Ok(None) => None,
        Ok(Some(t)) => Some(CutoffOutcome::At(t@)),
        Err(e) => Some(outcome_of(Err(e))),
    }
}

/// The cutoff that a max-age setting asks for, if it does not disable the check.
/// Returns `None`, and reads nothing, if the text is one that `parse_cutoff` does
/// not take.
pub fn cutoff_setting(input: &str) -> (r: Option<Result<Option<Timestamp>, CutoffError>>)
    ensures
        match r {
            None => is_overlong_text(input@),
            Some(setting) => !is_overlong_text(input@) && exists|
                reading: Result<(u64, u32), (u64, u32)>,
            |
                is_reading(reading) && setting_of(setting) == setting_outcome(
                    input@,
                    #[trigger] reading_time(reading),
                ),
        },
{
    if is_overlong(input) {
        return None;
    }
    if is_disable_sentinel(input) {
        let ghost reading: Result<(u64, u32), (u64, u32)> = Ok((0u64, 0u32));
        assert(setting_outcome(input@, reading_time(reading)) is None);
        return Some(Ok(None));
    }
    match parse_cutoff(input) {
        Ok(t) => Some(Ok(Some(t))),
        Err(e) => Some(Err(e)),
    }
}

/// The part of a max-age text that writes a duration: the text without white space
/// around it and without a cosmetic ` ago`.
pub fn duration_text(input: &str) -> (r: String)
    ensures
        r@ == duration_part(text::trimmed(input@)),
{
    strip_ago(trim(input).as_str())
}

} // verus!
