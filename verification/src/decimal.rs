//! Decimal parsing of unsigned integers, with the grammar and the error
//! precedence of Rust's `str::parse` for unsigned integer types: an optional
//! leading `+`, then at least one ASCII digit; digits are read left to right,
//! and the first character that is not a digit, or the first digit that takes
//! the value past the type's maximum, decides the error.

use vstd::prelude::*;

verus! {

/// Why a text is not an unsigned decimal integer.
#[derive(Debug, Clone, Copy, PartialEq, Eq, Structural)]
pub enum IntErrorKind {
    /// The text is empty.
    Empty,
    /// A character is not a decimal digit (a lone sign counts as one).
    InvalidDigit,
    /// The value exceeds the target type's maximum.
    PosOverflow,
}

pub open spec fn is_decimal_digit(c: char) -> bool {
    '0' <= c && c <= '9'
}

pub open spec fn digit_value(c: char) -> int {
    c as int - '0' as int
}

/// Reads the digits `d` left to right onto the running value `acc`.
pub open spec fn scan_digits(d: Seq<char>, acc: int, max: int) -> Result<int, IntErrorKind>
    decreases d.len(),
{
    if d.len() == 0 {
        Ok(acc)
    } else if !is_decimal_digit(d[0]) {
        Err(IntErrorKind::InvalidDigit)
    } else if acc * 10 + digit_value(d[0]) > max {
        Err(IntErrorKind::PosOverflow)
    } else {
        scan_digits(d.drop_first(), acc * 10 + digit_value(d[0]), max)
    }
}

/// The value of the decimal text `s` for a type whose largest value is `max`.
pub open spec fn parse_unsigned(s: Seq<char>, max: int) -> Result<int, IntErrorKind> {
    if s.len() == 0 {
        Err(IntErrorKind::Empty)
    } else if s.len() == 1 && (s[0] == '+' || s[0] == '-') {
        Err(IntErrorKind::InvalidDigit)
    } else if s[0] == '+' {
        scan_digits(s.drop_first(), 0, max)
    } else {
        scan_digits(s, 0, max)
    }
}

/// Parses `s` as an unsigned decimal no larger than `max`.
pub fn parse_decimal(s: &str, max: u64) -> (r: Result<u64, IntErrorKind>)
    ensures
        r matches Ok(v) ==> v <= max,
        match r {
            Ok(v) => parse_unsigned(s@, max as int) == Ok::<int, IntErrorKind>(v as int),
            Err(e) => parse_unsigned(s@, max as int) == Err::<int, IntErrorKind>(e),
        },
{
    let n = s.unicode_len();
    if n == 0 {
        return Err(IntErrorKind::Empty);
    }
    let first = s.get_char(0);
    if n == 1 && (first == '+' || first == '-') {
        return Err(IntErrorKind::InvalidDigit);
    }
    let mut i: usize = if first == '+' { 1 } else { 0 };
    let ghost digits = if first == '+' { s@.drop_first() } else { s@ };
    assert(digits =~= s@.subrange(i as int, n as int));
    let mut acc: u64 = 0;
    while i < n
        invariant
            n == s@.len(),
            i <= n,
            acc <= max,
            parse_unsigned(s@, max as int) == scan_digits(
                s@.subrange(i as int, n as int),
                acc as int,
                max as int,
            ),
        decreases n - i,
    {
        let c = s.get_char(i);
        let ghost rest = s@.subrange(i as int, n as int);
        assert(rest[0] == c);
        assert(rest.drop_first() =~= s@.subrange(i + 1, n as int));
        if !(c >= '0' && c <= '9') {
            return Err(IntErrorKind::InvalidDigit);
        }
        let d: u64 = (c as u32 - '0' as u32) as u64;
        let next: u128 = (acc as u128) * 10 + (d as u128);
        if next > max as u128 {
            return Err(IntErrorKind::PosOverflow);
        }
        acc = next as u64;
        i = i + 1;
    }
    Ok(acc)
}

/// Parses `s` as a `usize`, as `s.parse::<usize>()` does.
pub fn parse_usize(s: &str) -> (r: Result<usize, IntErrorKind>)
    ensures
        match r {
            Ok(v) => parse_unsigned(s@, usize::MAX as int) == Ok::<int, IntErrorKind>(v as int),
            Err(e) => parse_unsigned(s@, usize::MAX as int) == Err::<int, IntErrorKind>(e),
        },
{
    match parse_decimal(s, usize::MAX as u64) {
        Ok(v) => Ok(v as usize),
        Err(e) => Err(e),
    }
}

/// Parses `s` as a `u16`, as `s.parse::<u16>()` does.
pub fn parse_u16(s: &str) -> (r: Result<u16, IntErrorKind>)
    ensures
        match r {
            Ok(v) => parse_unsigned(s@, u16::MAX as int) == Ok::<int, IntErrorKind>(v as int),
            Err(e) => parse_unsigned(s@, u16::MAX as int) == Err::<int, IntErrorKind>(e),
        },
{
    match parse_decimal(s, u16::MAX as u64) {
        Ok(v) => Ok(v as u16),
        Err(e) => Err(e),
    }
}

/// The character of a decimal digit `d < 10`.
pub open spec fn digit_char(d: int) -> char {
    if d == 0 {
        '0'
    } else if d == 1 {
        '1'
    } else if d == 2 {
        '2'
    } else if d == 3 {
        '3'
    } else if d == 4 {
        '4'
    } else if d == 5 {
        '5'
    } else if d == 6 {
        '6'
    } else if d == 7 {
        '7'
    } else if d == 8 {
        '8'
    } else {
        '9'
    }
}

/// The shortest decimal text of `p`: its digits, most significant first.
pub open spec fn decimal_text(p: nat) -> Seq<char>
    decreases p,
{
    if p < 10 {
        seq![digit_char(p as int)]
    } else {
        decimal_text(p / 10).push(digit_char((p % 10) as int))
    }
}

/// Reading one more character after `s` continues from the value read so far.
proof fn lemma_scan_push(s: Seq<char>, c: char, acc: int, max: int)
    ensures
        scan_digits(s.push(c), acc, max) == match scan_digits(s, acc, max) {
            Ok(v) => if !is_decimal_digit(c) {
                Err(IntErrorKind::InvalidDigit)
            } else if v * 10 + digit_value(c) > max {
                Err(IntErrorKind::PosOverflow)
            } else {
                Ok(v * 10 + digit_value(c))
            },
            Err(e) => Err(e),
        },
    decreases s.len(),
{
    if s.len() == 0 {
        assert(s.push(c).drop_first() =~= Seq::<char>::empty());
        assert(s.push(c)[0] == c);
        assert(scan_digits(Seq::<char>::empty(), acc * 10 + digit_value(c), max) == Ok::<
            int,
            IntErrorKind,
        >(acc * 10 + digit_value(c)));
    } else {
        assert(s.push(c).drop_first() =~= s.drop_first().push(c));
        assert(s.push(c)[0] == s[0]);
        if is_decimal_digit(s[0]) && acc * 10 + digit_value(s[0]) <= max {
            lemma_scan_push(s.drop_first(), c, acc * 10 + digit_value(s[0]), max);
        }
    }
}

proof fn lemma_digit_char(d: int)
    requires
        0 <= d < 10,
    ensures
        is_decimal_digit(digit_char(d)),
        digit_value(digit_char(d)) == d,
{
}

/// The decimal text of `p` is a non-empty string of digits that reads as `p`.
pub proof fn lemma_decimal_text_shape(p: nat)
    ensures
        decimal_text(p).len() >= 1,
        forall|i: int| 0 <= i < decimal_text(p).len() ==> #[trigger] is_decimal_digit(
            decimal_text(p)[i],
        ),
        scan_digits(decimal_text(p), 0, p as int) == Ok::<int, IntErrorKind>(p as int),
    decreases p,
{
    if p >= 10 {
        lemma_decimal_text_shape(p / 10);
        let d = (p % 10) as int;
        lemma_digit_char(d);
        lemma_scan_push(decimal_text(p / 10), digit_char(d), 0, p as int);
        lemma_scan_bound(decimal_text(p / 10), p / 10, p as int);
        assert((p / 10) * 10 + d == p);
        assert forall|i: int| 0 <= i < decimal_text(p).len() implies #[trigger] is_decimal_digit(
            decimal_text(p)[i],
        ) by {
            if i < decimal_text(p / 10).len() {
                assert(decimal_text(p)[i] == decimal_text(p / 10)[i]);
            }
        }
    } else {
        lemma_digit_char(p as int);
        let t = seq![digit_char(p as int)];
        assert(t.drop_first() =~= Seq::<char>::empty());
        assert(scan_digits(Seq::<char>::empty(), p as int, p as int) == Ok::<int, IntErrorKind>(
            p as int,
        ));
    }
}

/// Reading a text that reads as `v` under one maximum reads the same under any
/// larger maximum.
proof fn lemma_scan_bound(d: Seq<char>, v: nat, max: int)
    requires
        scan_digits(d, 0, v as int) == Ok::<int, IntErrorKind>(v as int),
        v <= max,
    ensures
        scan_digits(d, 0, max) == Ok::<int, IntErrorKind>(v as int),
{
    lemma_scan_monotone(d, 0, v as int, max);
}

proof fn lemma_scan_monotone(d: Seq<char>, acc: int, m1: int, m2: int)
    requires
        m1 <= m2,
        scan_digits(d, acc, m1) is Ok,
    ensures
        scan_digits(d, acc, m2) == scan_digits(d, acc, m1),
    decreases d.len(),
{
    if d.len() > 0 {
        lemma_scan_monotone(d.drop_first(), acc * 10 + digit_value(d[0]), m1, m2);
    }
}

/// The decimal text of a value no larger than `max` reads back as that value.
pub proof fn lemma_parse_decimal_text(p: nat, max: int)
    requires
        p <= max,
    ensures
        parse_unsigned(decimal_text(p), max) == Ok::<int, IntErrorKind>(p as int),
{
    lemma_decimal_text_shape(p);
    lemma_scan_monotone(decimal_text(p), 0, p as int, max);
    assert(is_decimal_digit(decimal_text(p)[0]));
}

proof fn lemma_scan_ok_digits(d: Seq<char>, acc: int, max: int)
    requires
        scan_digits(d, acc, max) is Ok,
    ensures
        forall|i: int| 0 <= i < d.len() ==> #[trigger] is_decimal_digit(d[i]),
    decreases d.len(),
{
    if d.len() > 0 {
        lemma_scan_ok_digits(d.drop_first(), acc * 10 + digit_value(d[0]), max);
        assert forall|i: int| 0 <= i < d.len() implies #[trigger] is_decimal_digit(d[i]) by {
            if i > 0 {
                assert(d[i] == d.drop_first()[i - 1]);
            }
        }
    }
}

/// Only decimal text is accepted: a text that parses is non-empty, consists of
/// ASCII digits after an optional leading `+` (with at least one digit), and
/// denotes a value in `0..=max`; the empty text is the `Empty` error and no
/// other.
pub proof fn lemma_parsed_text_is_decimal(s: Seq<char>, max: int)
    requires
        max >= 0,
    ensures
        parse_unsigned(s, max) == Err::<int, IntErrorKind>(IntErrorKind::Empty) <==> s.len() == 0,
        parse_unsigned(s, max) matches Ok(v) ==> {
            let body = if s[0] == '+' {
                s.drop_first()
            } else {
                s
            };
            &&& body.len() >= 1
            &&& forall|i: int| 0 <= i < body.len() ==> #[trigger] is_decimal_digit(body[i])
            &&& 0 <= v <= max
        },
{
    if s.len() > 0 && !(s.len() == 1 && (s[0] == '+' || s[0] == '-')) {
        let body = if s[0] == '+' {
            s.drop_first()
        } else {
            s
        };
        lemma_scan_nonneg(body, 0, max);
        if parse_unsigned(s, max) is Ok {
            lemma_scan_ok_digits(body, 0, max);
            if body.len() == 0 {
                assert(s.len() == 1 && s[0] == '+');
            }
        }
    }
}

proof fn lemma_scan_nonneg(d: Seq<char>, acc: int, max: int)
    requires
        0 <= acc <= max,
    ensures
        scan_digits(d, acc, max) matches Ok(v) ==> 0 <= v <= max,
        scan_digits(d, acc, max) != Err::<int, IntErrorKind>(IntErrorKind::Empty),
    decreases d.len(),
{
    if d.len() > 0 && is_decimal_digit(d[0]) && acc * 10 + digit_value(d[0]) <= max {
        lemma_scan_nonneg(d.drop_first(), acc * 10 + digit_value(d[0]), max);
    }
}

} // verus!
