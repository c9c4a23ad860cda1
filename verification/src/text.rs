//! Text as sequences of characters: searching, splitting, trimming and
//! rendering, each with its meaning as a function on `Seq<char>`.

use vstd::prelude::*;

verus! {

broadcast use vstd::seq::group_seq_axioms;

/// `String::push` appends one character to the end of the string.
pub assume_specification[ String::push ](s: &mut String, c: char)
    ensures
        final(s)@ == old(s)@.push(c),
;

/// The position of the last `c` in `s`.
pub open spec fn last_position(s: Seq<char>, c: char) -> Option<int>
    decreases s.len(),
{
    if s.len() == 0 {
        None
    } else if s.last() == c {
        Some(s.len() - 1)
    } else {
        last_position(s.drop_last(), c)
    }
}

/// What `last_position` finds holds `c`, and no later place does.
pub proof fn lemma_last_position(s: Seq<char>, c: char)
    ensures
        match last_position(s, c) {
            Some(i) => 0 <= i < s.len() && s[i] == c && forall|j: int|
                i < j < s.len() ==> s[j] != c,
            None => !s.contains(c),
        },
    decreases s.len(),
{
    if s.len() > 0 && s.last() != c {
        lemma_last_position(s.drop_last(), c);
        if last_position(s.drop_last(), c) is None {
            assert forall|j: int| 0 <= j < s.len() implies s[j] != c by {
                if j < s.len() - 1 {
                    assert(s.drop_last()[j] == s[j]);
                    assert(s.drop_last().contains(s[j]));
                }
            }
        } else {
            let i = last_position(s.drop_last(), c)->0;
            assert forall|j: int| i < j < s.len() implies s[j] != c by {
                if j < s.len() - 1 {
                    assert(s.drop_last()[j] == s[j]);
                }
            }
        }
    }
}

/// A place that holds `c` with no `c` behind it is the last position.
pub proof fn lemma_last_position_is(s: Seq<char>, c: char, i: int)
    requires
        0 <= i < s.len(),
        s[i] == c,
        forall|j: int| i < j < s.len() ==> s[j] != c,
    ensures
        last_position(s, c) == Some(i),
{
    lemma_last_position(s, c);
    assert(s.contains(s[i]));
}

/// The characters of `s`, in order.
pub fn chars_of(s: &str) -> (r: Vec<char>)
    ensures
        r@ == s@,
{
    let mut r: Vec<char> = Vec::new();
    for c in it: s.chars()
        invariant
            r@ == it.seq().take(it.index()),
            it.seq() == s@,
    {
        r.push(c);
    }
    r
}

/// The characters of `v` from `from` up to `to`, as a string.
pub fn string_of(v: &Vec<char>, from: usize, to: usize) -> (r: String)
    requires
        from <= to <= v.len(),
    ensures
        r@ == v@.subrange(from as int, to as int),
{
    let mut r = String::new();
    let mut i: usize = from;
    while i < to
        invariant
            from <= i <= to <= v.len(),
            r@ == v@.subrange(from as int, i as int),
        decreases to - i,
    {
        r.push(v[i]);
        i = i + 1;
    }
    r
}

/// Whether two texts have the same characters.
pub fn same_text(a: &str, b: &str) -> (r: bool)
    ensures
        r == (a@ == b@),
{
    a.to_owned() == b.to_owned()
}

/// The position of the last `c` in `v`.
pub fn find_last(v: &Vec<char>, c: char) -> (r: Option<usize>)
    ensures
        match r {
            Some(i) => last_position(v@, c) == Some(i as int),
            None => last_position(v@, c) is None,
        },
{
    let mut i: usize = v.len();
    assert(v@.take(v@.len() as int) =~= v@);
    while i > 0
        invariant
            i <= v.len(),
            last_position(v@, c) == last_position(v@.take(i as int), c),
        decreases i,
    {
        if v[i - 1] == c {
            return Some(i - 1);
        }
        proof {
            assert(v@.take(i as int).drop_last() =~= v@.take(i - 1));
        }
        i = i - 1;
    }
    None
}

/// Whether `c` is white space, as the Unicode property `White_Space` has it.
pub open spec fn is_white(c: char) -> bool {
    let n = c as int;
    ||| 0x9 <= n <= 0xd
    ||| n == 0x20
    ||| n == 0x85
    ||| n == 0xa0
    ||| n == 0x1680
    ||| 0x2000 <= n <= 0x200a
    ||| n == 0x2028
    ||| n == 0x2029
    ||| n == 0x202f
    ||| n == 0x205f
    ||| n == 0x3000
}

/// Whether `c` is white space.
pub fn white(c: char) -> (r: bool)
    ensures
        r == is_white(c),
{
    let n: u32 = c as u32;
    (0x9 <= n && n <= 0xd) || n == 0x20 || n == 0x85 || n == 0xa0 || n == 0x1680 || (0x2000 <= n
        && n <= 0x200a) || n == 0x2028 || n == 0x2029 || n == 0x202f || n == 0x205f || n == 0x3000
}

/// `s` without the white space in front.
pub open spec fn trim_front(s: Seq<char>) -> Seq<char>
    decreases s.len(),
{
    if s.len() > 0 && is_white(s[0]) {
        trim_front(s.drop_first())
    } else {
        s
    }
}

/// `s` without the white space at the end.
pub open spec fn trim_back(s: Seq<char>) -> Seq<char>
    decreases s.len(),
{
    if s.len() > 0 && is_white(s.last()) {
        trim_back(s.drop_last())
    } else {
        s
    }
}

/// `s` without the white space at either end.
pub open spec fn trimmed(s: Seq<char>) -> Seq<char> {
    trim_back(trim_front(s))
}

/// Where the text of `v` from `from` up to `to` begins, white space skipped.
pub fn skip_white(v: &Vec<char>, from: usize, to: usize) -> (r: usize)
    requires
        from <= to <= v.len(),
    ensures
        from <= r <= to,
        v@.subrange(r as int, to as int) == trim_front(v@.subrange(from as int, to as int)),
{
    let mut i: usize = from;
    while i < to && white(v[i])
        invariant
            from <= i <= to <= v.len(),
            trim_front(v@.subrange(i as int, to as int)) == trim_front(
                v@.subrange(from as int, to as int),
            ),
        decreases to - i,
    {
        proof {
            assert(v@.subrange(i as int, to as int).drop_first() =~= v@.subrange(
                i + 1,
                to as int,
            ));
        }
        i = i + 1;
    }
    i
}

/// `v` from `from` up to `to` without the white space at either end.
pub fn trim_range(v: &Vec<char>, from: usize, to: usize) -> (r: Vec<char>)
    requires
        from <= to <= v.len(),
    ensures
        r@ == trimmed(v@.subrange(from as int, to as int)),
{
    let start: usize = skip_white(v, from, to);
    let mut end: usize = to;
    while end > start && white(v[end - 1])
        invariant
            from <= start <= end <= to <= v.len(),
            trim_back(v@.subrange(start as int, end as int)) == trimmed(
                v@.subrange(from as int, to as int),
            ),
        decreases end,
    {
        proof {
            assert(v@.subrange(start as int, end as int).drop_last() =~= v@.subrange(
                start as int,
                end - 1,
            ));
        }
        end = end - 1;
    }
    chars_in(v, start, end)
}

/// The characters of `v` from `from` up to `to`.
pub fn chars_in(v: &Vec<char>, from: usize, to: usize) -> (r: Vec<char>)
    requires
        from <= to <= v.len(),
    ensures
        r@ == v@.subrange(from as int, to as int),
{
    let mut r: Vec<char> = Vec::new();
    let mut i: usize = from;
    while i < to
        invariant
            from <= i <= to <= v.len(),
            r@ == v@.subrange(from as int, i as int),
        decreases to - i,
    {
        r.push(v[i]);
        i = i + 1;
    }
    r
}

/// The position of the first character of `s` that is `a` or `b`.
pub open spec fn first_of(s: Seq<char>, a: char, b: char) -> Option<int>
    decreases s.len(),
{
    if s.len() == 0 {
        None
    } else if s[0] == a || s[0] == b {
        Some(0)
    } else {
        match first_of(s.drop_first(), a, b) {
            Some(i) => Some(i + 1),
            None => None,
        }
    }
}

/// What `first_of` finds is `a` or `b`, and nothing before it is.
pub proof fn lemma_first_of(s: Seq<char>, a: char, b: char)
    ensures
        match first_of(s, a, b) {
            Some(i) => 0 <= i < s.len() && (s[i] == a || s[i] == b) && forall|j: int|
                0 <= j < i ==> s[j] != a && s[j] != b,
            None => forall|j: int| 0 <= j < s.len() ==> s[j] != a && s[j] != b,
        },
    decreases s.len(),
{
    if s.len() > 0 && s[0] != a && s[0] != b {
        let t = s.drop_first();
        lemma_first_of(t, a, b);
        assert forall|j: int| 0 < j < s.len() implies s[j] == t[j - 1] by {}
    }
}

/// A place that holds `a` or `b` with neither before it is the first one.
pub proof fn lemma_first_of_is(s: Seq<char>, a: char, b: char, i: int)
    requires
        0 <= i < s.len(),
        s[i] == a || s[i] == b,
        forall|j: int| 0 <= j < i ==> s[j] != a && s[j] != b,
    ensures
        first_of(s, a, b) == Some(i),
{
    lemma_first_of(s, a, b);
}

/// The position of the first character of `v`, from `from` on, that is `a` or
/// `b`, counted from the front of `v`.
pub fn find_first(v: &Vec<char>, from: usize, a: char, b: char) -> (r: Option<usize>)
    requires
        from <= v.len(),
    ensures
        match r {
            Some(i) => from <= i < v.len() && first_of(v@.skip(from as int), a, b) == Some(
                i - from,
            ),
            None => first_of(v@.skip(from as int), a, b) is None,
        },
{
    let mut i: usize = from;
    while i < v.len()
        invariant
            from <= i <= v.len(),
            forall|j: int| from <= j < i ==> v@[j] != a && v@[j] != b,
        decreases v.len() - i,
    {
        if v[i] == a || v[i] == b {
            proof {
                lemma_first_of_is(v@.skip(from as int), a, b, i - from);
            }
            return Some(i);
        }
        i = i + 1;
    }
    proof {
        let t = v@.skip(from as int);
        lemma_first_of(t, a, b);
        if first_of(t, a, b) is Some {
            let k = first_of(t, a, b)->0;
            assert(t[k] == v@[k + from]);
        }
    }
    None
}

/// The pieces of `s` between its `sep` characters.
pub open spec fn split(s: Seq<char>, sep: char) -> Seq<Seq<char>>
    decreases s.len(),
{
    match first_of(s, sep, sep) {
        Some(i) => if 0 <= i < s.len() {
            seq![s.take(i)] + split(s.skip(i + 1), sep)
        } else {
            seq![s]
        },
        None => seq![s],
    }
}

/// The sequences that a vector of vectors stands for.
pub open spec fn texts(v: Seq<Vec<char>>) -> Seq<Seq<char>> {
    v.map_values(|t: Vec<char>| t@)
}

/// The pieces of `v` between its `sep` characters.
pub fn split_at_each(v: &Vec<char>, sep: char) -> (r: Vec<Vec<char>>)
    ensures
        texts(r@) == split(v@, sep),
{
    let mut r: Vec<Vec<char>> = Vec::new();
    let mut from: usize = 0;
    assert(v@.skip(0) =~= v@);
    assert(texts(r@) + split(v@.skip(0), sep) =~= split(v@, sep));
    loop
        invariant
            from <= v.len(),
            texts(r@) + split(v@.skip(from as int), sep) == split(v@, sep),
        decreases v.len() - from,
    {
        let ghost before = r@;
        let ghost rest = v@.skip(from as int);
        match find_first(v, from, sep, sep) {
            Some(i) => {
                let piece = chars_in(v, from, i);
                let ghost head = rest.take(i - from);
                proof {
                    assert(piece@ =~= head);
                    assert(rest.skip(i - from + 1) =~= v@.skip(i + 1));
                }
                r.push(piece);
                from = i + 1;
                proof {
                    assert(texts(r@) =~= texts(before).push(head));
                    assert(texts(r@) + split(v@.skip(from as int), sep) =~= texts(before) + split(
                        rest,
                        sep,
                    ));
                }
            },
            None => {
                let piece = chars_in(v, from, v.len());
                proof {
                    assert(piece@ =~= rest);
                }
                r.push(piece);
                proof {
                    assert(texts(r@) =~= texts(before) + split(rest, sep));
                }
                return r;
            },
        }
    }
}

/// The first place at which `needle` stands in `hay`.
pub open spec fn occurrence(hay: Seq<char>, needle: Seq<char>) -> Option<int>
    decreases hay.len(),
{
    if needle.is_prefix_of(hay) {
        Some(0)
    } else if hay.len() == 0 {
        None
    } else {
        match occurrence(hay.drop_first(), needle) {
            Some(i) => Some(i + 1),
            None => None,
        }
    }
}

/// Whether `needle` stands in `hay` at `at`.
pub fn stands_at(hay: &Vec<char>, at: usize, needle: &Vec<char>) -> (r: bool)
    requires
        at <= hay.len(),
    ensures
        r == needle@.is_prefix_of(hay@.skip(at as int)),
{
    if needle.len() > hay.len() - at {
        return false;
    }
    let ghost rest = hay@.skip(at as int);
    let mut i: usize = 0;
    while i < needle.len()
        invariant
            i <= needle.len(),
            at + needle.len() <= hay.len(),
            rest == hay@.skip(at as int),
            forall|j: int| 0 <= j < i ==> needle@[j] == hay@[at + j],
        decreases needle.len() - i,
    {
        if needle[i] != hay[at + i] {
            proof {
                assert(rest[i as int] == hay@[at + i]);
                assert(rest.subrange(0, needle@.len() as int)[i as int] == rest[i as int]);
            }
            return false;
        }
        i = i + 1;
    }
    assert(needle@ =~= rest.subrange(0, needle@.len() as int));
    true
}

/// The first place at which `needle` stands in `hay`.
pub fn find_text(hay: &Vec<char>, needle: &Vec<char>) -> (r: Option<usize>)
    ensures
        match r {
            Some(i) => occurrence(hay@, needle@) == Some(i as int) && i + needle@.len()
                <= hay@.len(),
            None => occurrence(hay@, needle@) is None,
        },
{
    let mut i: usize = 0;
    assert(hay@.skip(0) =~= hay@);
    loop
        invariant
            i <= hay.len(),
            match occurrence(hay@.skip(i as int), needle@) {
                Some(k) => occurrence(hay@, needle@) == Some(i + k),
                None => occurrence(hay@, needle@) is None,
            },
        decreases hay.len() - i,
    {
        if stands_at(hay, i, needle) {
            return Some(i);
        }
        if i == hay.len() {
            return None;
        }
        proof {
            assert(hay@.skip(i as int).drop_first() =~= hay@.skip(i + 1));
        }
        i = i + 1;
    }
}

/// Why a text is no integer.
#[derive(Clone, Copy, Debug, PartialEq, Eq, Structural)]
pub enum IntError {
    /// There is nothing to read.
    Empty,
    /// A character is not a digit, or a sign stands alone.
    InvalidDigit,
    /// The number is too large for its type.
    PosOverflow,
}

/// Whether `c` is one of the ten ASCII digits.
pub open spec fn is_digit(c: char) -> bool {
    '0' as int <= c as int <= '9' as int
}

/// Whether `c` is one of the ten ASCII digits.
pub fn digit(c: char) -> (r: bool)
    ensures
        r == is_digit(c),
{
    '0' <= c && c <= '9'
}

/// The number that a digit stands for.
pub open spec fn digit_value(c: char) -> int {
    c as int - '0' as int
}

/// The number that `s` writes in decimal digits, read from the left: the first
/// character that is no digit, or that carries the number past `max`, decides
/// the error.
pub open spec fn decimal_value(s: Seq<char>, max: int) -> Result<int, IntError>
    decreases s.len(),
{
    if s.len() == 0 {
        Ok(0)
    } else {
        match decimal_value(s.drop_last(), max) {
            Err(e) => Err(e),
            Ok(n) => if !is_digit(s.last()) {
                Err(IntError::InvalidDigit)
            } else if 10 * n + digit_value(s.last()) > max {
                Err(IntError::PosOverflow)
            } else {
                Ok(10 * n + digit_value(s.last()))
            },
        }
    }
}

/// An error at some point of the text is the error of the whole text.
proof fn lemma_decimal_error(s: Seq<char>, max: int, i: int)
    requires
        0 <= i <= s.len(),
        decimal_value(s.take(i), max) is Err,
    ensures
        decimal_value(s, max) == decimal_value(s.take(i), max),
    decreases s.len(),
{
    if i == s.len() {
        assert(s.take(i) =~= s);
    } else {
        assert(s.drop_last().take(i) =~= s.take(i));
        lemma_decimal_error(s.drop_last(), max, i);
    }
}

/// Reads the digits of `v` from `from` up to `to`.
pub fn read_digits(v: &Vec<char>, from: usize, to: usize, max: u64) -> (r: Result<u64, IntError>)
    requires
        from <= to <= v.len(),
    ensures
        match r {
            Ok(n) => decimal_value(v@.subrange(from as int, to as int), max as int) == Ok::<
                int,
                IntError,
            >(n as int),
            Err(e) => decimal_value(v@.subrange(from as int, to as int), max as int) == Err::<
                int,
                IntError,
            >(e),
        },
        r matches Ok(n) ==> n <= max,
{
    let ghost whole = v@.subrange(from as int, to as int);
    let mut n: u64 = 0;
    let mut i: usize = from;
    while i < to
        invariant
            from <= i <= to <= v.len(),
            whole == v@.subrange(from as int, to as int),
            n <= max,
            decimal_value(whole.take(i - from), max as int) == Ok::<int, IntError>(n as int),
        decreases to - i,
    {
        let c = v[i];
        proof {
            let next = whole.take(i - from + 1);
            assert(next.drop_last() =~= whole.take(i - from));
            assert(next.last() == c);
        }
        if !digit(c) {
            proof {
                lemma_decimal_error(whole, max as int, i - from + 1);
            }
            return Err(IntError::InvalidDigit);
        }
        let d: u64 = (c as u64) - ('0' as u64);
        if n > max / 10 || d > max - 10 * n {
            proof {
                lemma_decimal_error(whole, max as int, i - from + 1);
            }
            return Err(IntError::PosOverflow);
        }
        n = 10 * n + d;
        i = i + 1;
    }
    assert(whole.take(to - from) =~= whole);
    Ok(n)
}

/// The unsigned number up to `max` that `s` writes: an optional `+`, then digits.
pub open spec fn unsigned_value(s: Seq<char>, max: int) -> Result<int, IntError> {
    if s.len() == 0 {
        Err(IntError::Empty)
    } else if s.len() == 1 && s[0] == '+' {
        Err(IntError::InvalidDigit)
    } else if s[0] == '+' {
        decimal_value(s.skip(1), max)
    } else {
        decimal_value(s, max)
    }
}

/// Reads `v` as a `u32`.
pub fn read_u32(v: &Vec<char>) -> (r: Result<u32, IntError>)
    ensures
        match r {
            Ok(n) => unsigned_value(v@, u32::MAX as int) == Ok::<int, IntError>(n as int),
            Err(e) => unsigned_value(v@, u32::MAX as int) == Err::<int, IntError>(e),
        },
{
    if v.len() == 0 {
        return Err(IntError::Empty);
    }
    if v.len() == 1 && v[0] == '+' {
        return Err(IntError::InvalidDigit);
    }
    let from: usize = if v[0] == '+' {
        1
    } else {
        0
    };
    proof {
        assert(v@.subrange(0, v@.len() as int) =~= v@);
        assert(v@.subrange(1, v@.len() as int) =~= v@.skip(1));
    }
    match read_digits(v, from, v.len(), 0xffff_ffff) {
        Ok(n) => Ok(n as u32),
        Err(e) => Err(e),
    }
}

/// The digit that stands for `d`.
pub open spec fn digit_char(d: int) -> char {
    ('0' as int + d) as char
}

/// `n` in decimal digits.
pub open spec fn decimal(n: nat) -> Seq<char>
    decreases n,
{
    if n < 10 {
        seq![digit_char(n as int)]
    } else {
        decimal(n / 10).push(digit_char((n % 10) as int))
    }
}

/// Appends `n` in decimal digits to `out`.
pub fn push_decimal(out: &mut String, n: u64)
    ensures
        final(out)@ == old(out)@ + decimal(n as nat),
    decreases n,
{
    let ghost start = out@;
    if n >= 10 {
        push_decimal(out, n / 10);
    }
    let d: u8 = 48 + (n % 10) as u8;
    out.push(d as char);
    assert(out@ =~= start + decimal(n as nat));
}

/// Reading back what `decimal` wrote gives the number again, as long as it fits.
pub proof fn decimal_reads_back(n: nat, max: int)
    requires
        n <= max,
    ensures
        decimal_value(decimal(n), max) == Ok::<int, IntError>(n as int),
        forall|i: int| 0 <= i < decimal(n).len() ==> is_digit(#[trigger] decimal(n)[i]),
        decimal(n).len() > 0,
    decreases n,
{
    if n >= 10 {
        decimal_reads_back(n / 10, max);
        assert(decimal(n).drop_last() =~= decimal(n / 10));
    } else {
        assert(decimal(n).drop_last() =~= Seq::<char>::empty());
        assert(decimal_value(Seq::<char>::empty(), max) == Ok::<int, IntError>(0));
    }
}

/// Whether `a` comes before `b` in the order of code points, or is the same text.
pub open spec fn text_le(a: Seq<char>, b: Seq<char>) -> bool
    decreases a.len(),
{
    if a.len() == 0 {
        true
    } else if b.len() == 0 {
        false
    } else if a[0] == b[0] {
        text_le(a.drop_first(), b.drop_first())
    } else {
        (a[0] as int) < (b[0] as int)
    }
}

/// `text_le` is a total order on texts.
pub proof fn text_order(a: Seq<char>, b: Seq<char>, c: Seq<char>)
    ensures
        text_le(a, a),
        text_le(a, b) || text_le(b, a),
        text_le(a, b) && text_le(b, a) ==> a == b,
        text_le(a, b) && text_le(b, c) ==> text_le(a, c),
    decreases a.len(),
{
    if a.len() > 0 {
        text_order(a.drop_first(), a.drop_first(), a.drop_first());
    }
    if a.len() > 0 && b.len() > 0 {
        let a1 = a.drop_first();
        let b1 = b.drop_first();
        let c1 = if c.len() > 0 {
            c.drop_first()
        } else {
            c
        };
        text_order(a1, b1, c1);
        if a[0] == b[0] && a1 == b1 {
            assert(a =~= seq![a[0]] + a1);
            assert(b =~= seq![b[0]] + b1);
        }
    } else if a.len() == 0 && b.len() == 0 {
        assert(a =~= b);
    }
}

/// Whether `a` comes before `b` in the order of code points, or is the same text.
pub fn text_not_after(a: &Vec<char>, b: &Vec<char>) -> (r: bool)
    ensures
        r == text_le(a@, b@),
{
    let mut i: usize = 0;
    assert(a@.skip(0) =~= a@);
    assert(b@.skip(0) =~= b@);
    while i < a.len() && i < b.len()
        invariant
            i <= a.len(),
            i <= b.len(),
            text_le(a@, b@) == text_le(a@.skip(i as int), b@.skip(i as int)),
        decreases a.len() - i,
    {
        if a[i] != b[i] {
            return a[i] < b[i];
        }
        proof {
            assert(a@.skip(i as int).drop_first() =~= a@.skip(i + 1));
            assert(b@.skip(i as int).drop_first() =~= b@.skip(i + 1));
        }
        i = i + 1;
    }
    i == a.len()
}

} // verus!
