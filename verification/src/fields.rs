//! The field grammar: each parser reads one field at a cursor and says where
//! the field ends. The specifications read the text that is left at the
//! cursor and give the value with the text that is left after the field.

use crate::bytes::{
    all_in, digits_value, lemma_digits_value_grows, lemma_run_len, run_len, scan, ByteClass,
    CLOSE_BRACKET, OPEN_BRACKET, POINT, SLASH, ZERO,
};
use vstd::prelude::*;
use vstd::slice::slice_subrange;

verus! {

/// Why a line is not a record.
#[derive(Clone, Copy, Debug, PartialEq, Eq)]
pub enum ParseError {
    /// A numeric field has no digit, or more than one decimal point.
    MalformedNumber,
    /// The CPU field is not `[`, exactly four digits, `]`.
    InvalidCpuField,
    /// A `[` stands where the task name has to start.
    EmptyTaskName,
    /// The identity field is neither `[tid/pid]` nor `[tid]`.
    InvalidIdentityField,
    /// No whitespace where the format requires some.
    MissingSeparator,
    /// The text ends where a field or a mandatory separator has to start.
    UnexpectedEndOfInput,
}

/// A decimal number without sign or exponent: digits and at most one decimal
/// point, with at least one digit. These are the texts over digits and points
/// that the standard floating-point conversion accepts.
pub open spec fn is_decimal(t: Seq<u8>) -> bool {
    &&& all_in(t, ByteClass::Numeric)
    &&& exists|i: int| 0 <= i < t.len() && ByteClass::Digit.has(#[trigger] t[i])
    &&& forall|i: int, j: int|
        0 <= i < t.len() && 0 <= j < t.len() && #[trigger] t[i] == POINT && #[trigger] t[j]
            == POINT ==> i == j
}

/// Whether `t` is a decimal number.
pub fn is_decimal_text(t: &[u8]) -> (r: bool)
    ensures
        r == is_decimal(t@),
{
    let mut seen_digit = false;
    let mut seen_point = false;
    let ghost mut digit_at: int = 0;
    let ghost mut point_at: int = 0;
    let mut i: usize = 0;
    while i < t.len()
        invariant
            i <= t.len(),
            forall|k: int| 0 <= k < i ==> ByteClass::Numeric.has(#[trigger] t@[k]),
            seen_digit ==> 0 <= digit_at < i && ByteClass::Digit.has(t@[digit_at]),
            !seen_digit ==> forall|k: int| 0 <= k < i ==> !ByteClass::Digit.has(#[trigger] t@[k]),
            seen_point ==> 0 <= point_at < i && t@[point_at] == POINT,
            seen_point ==> forall|k: int| 0 <= k < i && #[trigger] t@[k] == POINT ==> k == point_at,
            !seen_point ==> forall|k: int| 0 <= k < i ==> #[trigger] t@[k] != POINT,
        decreases t.len() - i,
    {
        let b = t[i];
        if ByteClass::Digit.contains(b) {
            seen_digit = true;
            proof {
                digit_at = i as int;
            }
        } else if b == POINT {
            if seen_point {
                assert(t@[point_at] == POINT && t@[i as int] == POINT);
                return false;
            }
            seen_point = true;
            proof {
                point_at = i as int;
            }
        } else {
            assert(!ByteClass::Numeric.has(t@[i as int]));
            return false;
        }
        i = i + 1;
    }
    seen_digit
}

/// A numeric field: the greedy run of digits and points, which has to be a
/// decimal number. An empty run is none, at the end of the text too.
pub open spec fn spec_float_value(r: Seq<u8>) -> Result<(Seq<u8>, Seq<u8>), ParseError> {
    let n = run_len(r, ByteClass::Numeric) as int;
    if is_decimal(r.take(n)) {
        Ok((r.take(n), r.skip(n)))
    } else {
        Err(ParseError::MalformedNumber)
    }
}

/// Reads a numeric field at `pos` and returns where it ends: its text lies
/// between the two positions, digit for digit.
pub fn parse_float_value(s: &[u8], pos: usize) -> (r: Result<usize, ParseError>)
    requires
        pos <= s.len(),
    ensures
        match r {
            Ok(end) => pos < end <= s.len() && spec_float_value(s@.skip(pos as int)) == Ok::<
                (Seq<u8>, Seq<u8>),
                ParseError,
            >((s@.subrange(pos as int, end as int), s@.skip(end as int))),
            Err(e) => spec_float_value(s@.skip(pos as int)) == Err::<(Seq<u8>, Seq<u8>), ParseError>(
                e,
            ),
        },
{
    let end = scan(s, pos, ByteClass::Numeric);
    let text = slice_subrange(s, pos, end);
    proof {
        let r = s@.skip(pos as int);
        assert(text@ =~= r.take(end - pos));
        assert(s@.skip(end as int) =~= r.skip(end - pos));
    }
    if is_decimal_text(text) {
        Ok(end)
    } else {
        Err(ParseError::MalformedNumber)
    }
}

/// Whether `r` starts with a CPU field: `[`, exactly four digits, `]`.
pub open spec fn is_cpu_field(r: Seq<u8>) -> bool {
    &&& r.len() >= 6
    &&& r[0] == OPEN_BRACKET
    &&& all_in(r.subrange(1, 5), ByteClass::Digit)
    &&& r[5] == CLOSE_BRACKET
}

/// The CPU field; its value is the number that the four digits write.
/// Anything else, a text that ends before the closing bracket too, is an
/// invalid CPU field.
pub open spec fn spec_cpu(r: Seq<u8>) -> Result<(u16, Seq<u8>), ParseError> {
    if is_cpu_field(r) {
        Ok((digits_value(r.subrange(1, 5)) as u16, r.skip(6)))
    } else {
        Err(ParseError::InvalidCpuField)
    }
}

/// Four digits write what their places add up to.
pub proof fn lemma_four_digits(d: Seq<u8>)
    requires
        d.len() == 4,
        all_in(d, ByteClass::Digit),
    ensures
        digits_value(d) == (d[0] - ZERO) * 1000 + (d[1] - ZERO) * 100 + (d[2] - ZERO) * 10 + (d[3]
            - ZERO),
        digits_value(d) <= 9999,
{
    let d3 = d.drop_last();
    let d2 = d3.drop_last();
    let d1 = d2.drop_last();
    assert(d1.drop_last().len() == 0);
    assert(ByteClass::Digit.has(d[0]) && ByteClass::Digit.has(d[1]) && ByteClass::Digit.has(d[2])
        && ByteClass::Digit.has(d[3]));
    assert(digits_value(d1.drop_last()) == 0);
    assert(digits_value(d1) == d[0] - ZERO);
    assert(digits_value(d2) == digits_value(d1) * 10 + (d[1] - ZERO));
    assert(digits_value(d3) == digits_value(d2) * 10 + (d[2] - ZERO));
    assert(digits_value(d) == digits_value(d3) * 10 + (d[3] - ZERO));
}

/// The CPU field is accepted exactly where `[`, four digits and `]` stand;
/// every other text gives the one error of the field.
pub proof fn lemma_cpu_accepts_exactly_four_digits(r: Seq<u8>)
    ensures
        spec_cpu(r) is Ok <==> r.len() >= 6 && r[0] == OPEN_BRACKET && ByteClass::Digit.has(r[1])
            && ByteClass::Digit.has(r[2]) && ByteClass::Digit.has(r[3]) && ByteClass::Digit.has(
            r[4],
        ) && r[5] == CLOSE_BRACKET,
        spec_cpu(r) is Err ==> spec_cpu(r) == Err::<(u16, Seq<u8>), ParseError>(
            ParseError::InvalidCpuField,
        ),
{
    if r.len() >= 6 {
        let d = r.subrange(1, 5);
        assert(d[0] == r[1] && d[1] == r[2] && d[2] == r[3] && d[3] == r[4]);
    }
}

/// Reads the CPU field at `pos`.
pub fn parse_cpu(s: &[u8], pos: usize) -> (r: Result<(u16, usize), ParseError>)
    requires
        pos <= s.len(),
    ensures
        match r {
            Ok((cpu, end)) => pos <= end <= s.len() && spec_cpu(s@.skip(pos as int)) == Ok::<
                (u16, Seq<u8>),
                ParseError,
            >((cpu, s@.skip(end as int))),
            Err(e) => spec_cpu(s@.skip(pos as int)) == Err::<(u16, Seq<u8>), ParseError>(e),
        },
{
    let ghost rest = s@.skip(pos as int);
    let ghost digits = rest.subrange(1, 5);
    if s.len() - pos < 6 || s[pos] != OPEN_BRACKET || s[pos + 5] != CLOSE_BRACKET {
        return Err(ParseError::InvalidCpuField);
    }
    let mut i: usize = 1;
    while i < 5
        invariant
            1 <= i <= 5,
            pos + 6 <= s.len(),
            rest == s@.skip(pos as int),
            digits == rest.subrange(1, 5),
            forall|k: int| 0 <= k < i - 1 ==> ByteClass::Digit.has(#[trigger] digits[k]),
        decreases 5 - i,
    {
        if !ByteClass::Digit.contains(s[pos + i]) {
            assert(!ByteClass::Digit.has(digits[i - 1]));
            return Err(ParseError::InvalidCpuField);
        }
        assert(digits[i - 1] == s@[pos + i]);
        i = i + 1;
    }
    proof {
        lemma_four_digits(digits);
        assert(s@.skip(pos + 6) =~= rest.skip(6));
        assert(ByteClass::Digit.has(digits[0]) && ByteClass::Digit.has(digits[1])
            && ByteClass::Digit.has(digits[2]) && ByteClass::Digit.has(digits[3]));
    }
    let thousands: u16 = (s[pos + 1] - ZERO) as u16;
    let hundreds: u16 = (s[pos + 2] - ZERO) as u16;
    let tens: u16 = (s[pos + 3] - ZERO) as u16;
    let units: u16 = (s[pos + 4] - ZERO) as u16;
    Ok((thousands * 1000 + hundreds * 100 + tens * 10 + units, pos + 6))
}

/// The task name: everything up to the next `[`, and at least one byte.
pub open spec fn spec_task_name(r: Seq<u8>) -> Result<(Seq<u8>, Seq<u8>), ParseError> {
    let n = run_len(r, ByteClass::Name) as int;
    if r.len() == 0 {
        Err(ParseError::UnexpectedEndOfInput)
    } else if r[0] == OPEN_BRACKET {
        Err(ParseError::EmptyTaskName)
    } else {
        Ok((r.take(n), r.skip(n)))
    }
}

/// Reads the task name at `pos` and returns where it ends: in front of the
/// next `[`, or at the end of the text. Spaces in front of that `[` belong to
/// the name.
pub fn parse_task_name(s: &[u8], pos: usize) -> (r: Result<usize, ParseError>)
    requires
        pos <= s.len(),
    ensures
        match r {
            Ok(end) => {
                &&& pos < end <= s.len()
                &&& spec_task_name(s@.skip(pos as int)) == Ok::<(Seq<u8>, Seq<u8>), ParseError>(
                    (s@.subrange(pos as int, end as int), s@.skip(end as int)),
                )
                &&& all_in(s@.subrange(pos as int, end as int), ByteClass::Name)
                &&& end < s.len() ==> s@[end as int] == OPEN_BRACKET
            },
            Err(e) => spec_task_name(s@.skip(pos as int)) == Err::<(Seq<u8>, Seq<u8>), ParseError>(
                e,
            ),
        },
{
    if pos >= s.len() {
        return Err(ParseError::UnexpectedEndOfInput);
    }
    if s[pos] == OPEN_BRACKET {
        return Err(ParseError::EmptyTaskName);
    }
    let end = scan(s, pos, ByteClass::Name);
    proof {
        let r = s@.skip(pos as int);
        lemma_run_len(r, ByteClass::Name);
        assert(s@.subrange(pos as int, end as int) =~= r.take(end - pos));
        assert(s@.skip(end as int) =~= r.skip(end - pos));
        if end < s.len() {
            assert(r.skip(end - pos)[0] == s@[end as int]);
        }
    }
    Ok(end)
}

/// Whether `d` writes an unsigned 64-bit integer in decimal: digits with no
/// leading zero (but `0` itself), and a value that fits.
pub open spec fn is_uint_text(d: Seq<u8>) -> bool {
    &&& d.len() > 0
    &&& all_in(d, ByteClass::Digit)
    &&& d[0] == ZERO ==> d.len() == 1
    &&& digits_value(d) <= u64::MAX
}

/// An unsigned decimal integer: a lone `0`, or the greedy run of digits that
/// starts with another digit, where the number fits 64 bits.
pub open spec fn spec_uint(r: Seq<u8>) -> Option<(u64, Seq<u8>)> {
    let n = run_len(r, ByteClass::Digit) as int;
    if r.len() == 0 || !ByteClass::Digit.has(r[0]) {
        None
    } else if r[0] == ZERO {
        Some((0, r.skip(1)))
    } else if digits_value(r.take(n)) > u64::MAX {
        None
    } else {
        Some((digits_value(r.take(n)) as u64, r.skip(n)))
    }
}

/// Reads an unsigned decimal integer at `pos`.
pub fn parse_uint(s: &[u8], pos: usize) -> (r: Option<(u64, usize)>)
    requires
        pos <= s.len(),
    ensures
        match r {
            Some((v, end)) => pos < end <= s.len() && spec_uint(s@.skip(pos as int)) == Some(
                (v, s@.skip(end as int)),
            ),
            None => spec_uint(s@.skip(pos as int)) is None,
        },
{
    if pos >= s.len() || !ByteClass::Digit.contains(s[pos]) {
        return None;
    }
    if s[pos] == ZERO {
        assert(s@.skip(pos + 1) =~= s@.skip(pos as int).skip(1));
        return Some((0, pos + 1));
    }
    let end = scan(s, pos, ByteClass::Digit);
    let ghost digits = s@.skip(pos as int).take(end - pos);
    proof {
        let r = s@.skip(pos as int);
        lemma_run_len(r, ByteClass::Digit);
        assert(digits =~= s@.subrange(pos as int, end as int));
        assert(s@.skip(end as int) =~= r.skip(end - pos));
    }
    let mut v: u64 = 0;
    let mut i: usize = pos;
    while i < end
        invariant
            pos <= i <= end <= s.len(),
            digits == s@.subrange(pos as int, end as int),
            digits == s@.skip(pos as int).take(end - pos),
            end - pos == run_len(s@.skip(pos as int), ByteClass::Digit),
            s@[pos as int] != ZERO,
            ByteClass::Digit.has(s@[pos as int]),
            all_in(digits, ByteClass::Digit),
            v == digits_value(digits.take(i - pos)),
        decreases end - i,
    {
        assert(ByteClass::Digit.has(digits[i - pos]) && digits[i - pos] == s@[i as int]);
        let d: u64 = (s[i] - ZERO) as u64;
        proof {
            let longer = digits.take(i + 1 - pos);
            assert(longer.drop_last() =~= digits.take(i - pos));
            assert(longer.last() == s@[i as int]);
            assert(digits_value(longer) == v * 10 + d);
            lemma_digits_value_grows(digits, i + 1 - pos);
        }
        if v > (u64::MAX - d) / 10 {
            assert(digits_value(digits) > u64::MAX);
            return None;
        }
        v = v * 10 + d;
        i = i + 1;
    }
    assert(digits.take(end - pos) =~= digits);
    Some((v, end))
}

/// The two integers of the form `tid/pid`.
pub open spec fn spec_tid_and_pid(r: Seq<u8>) -> Option<((u64, u64), Seq<u8>)> {
    match spec_uint(r) {
        Some((tid, after)) => if after.len() > 0 && after[0] == SLASH {
            match spec_uint(after.skip(1)) {
                Some((pid, end)) => Some(((tid, pid), end)),
                None => None,
            }
        } else {
            None
        },
        None => None,
    }
}

/// The `]` that ends the identity field, behind the ids `ids`. Where it is
/// absent, at the end of the text too, the field is invalid.
pub open spec fn spec_identity_end(r: Seq<u8>, ids: (u64, Option<u64>)) -> Result<
    ((u64, Option<u64>), Seq<u8>),
    ParseError,
> {
    if r.len() > 0 && r[0] == CLOSE_BRACKET {
        Ok((ids, r.skip(1)))
    } else {
        Err(ParseError::InvalidIdentityField)
    }
}

/// The identity field: `[`, then `tid/pid` or, where that form does not
/// match, `tid` alone, then `]`. Every other text is an invalid identity
/// field, one that ends before the field does too.
pub open spec fn spec_tid_pid(r: Seq<u8>) -> Result<((u64, Option<u64>), Seq<u8>), ParseError> {
    if r.len() == 0 || r[0] != OPEN_BRACKET {
        Err(ParseError::InvalidIdentityField)
    } else {
        match spec_tid_and_pid(r.skip(1)) {
            Some(((tid, pid), after)) => spec_identity_end(after, (tid, Some(pid))),
            None => match spec_uint(r.skip(1)) {
                Some((tid, after)) => spec_identity_end(after, (tid, None)),
                None => Err(ParseError::InvalidIdentityField),
            },
        }
    }
}

fn parse_identity_end(s: &[u8], pos: usize, ids: (u64, Option<u64>)) -> (r: Result<
    ((u64, Option<u64>), usize),
    ParseError,
>)
    requires
        pos <= s.len(),
    ensures
        match r {
            Ok((v, end)) => pos < end <= s.len() && spec_identity_end(s@.skip(pos as int), ids)
                == Ok::<((u64, Option<u64>), Seq<u8>), ParseError>((v, s@.skip(end as int))),
            Err(e) => spec_identity_end(s@.skip(pos as int), ids) == Err::<
                ((u64, Option<u64>), Seq<u8>),
                ParseError,
            >(e),
        },
{
    if pos < s.len() && s[pos] == CLOSE_BRACKET {
        assert(s@.skip(pos + 1) =~= s@.skip(pos as int).skip(1));
        Ok((ids, pos + 1))
    } else {
        Err(ParseError::InvalidIdentityField)
    }
}

/// Reads the identity field at `pos`: the thread id, and the process id where
/// the field gives one.
pub fn parse_tid_pid(s: &[u8], pos: usize) -> (r: Result<((u64, Option<u64>), usize), ParseError>)
    requires
        pos <= s.len(),
    ensures
        match r {
            Ok((ids, end)) => pos < end <= s.len() && spec_tid_pid(s@.skip(pos as int)) == Ok::<
                ((u64, Option<u64>), Seq<u8>),
                ParseError,
            >((ids, s@.skip(end as int))),
            Err(e) => spec_tid_pid(s@.skip(pos as int)) == Err::<
                ((u64, Option<u64>), Seq<u8>),
                ParseError,
            >(e),
        },
{
    if pos >= s.len() || s[pos] != OPEN_BRACKET {
        return Err(ParseError::InvalidIdentityField);
    }
    assert(s@.skip(pos + 1) =~= s@.skip(pos as int).skip(1));
    match parse_uint(s, pos + 1) {
        None => Err(ParseError::InvalidIdentityField),
        Some((tid, after)) => {
            if after < s.len() && s[after] == SLASH {
                assert(s@.skip(after + 1) =~= s@.skip(after as int).skip(1));
                match parse_uint(s, after + 1) {
                    Some((pid, end)) => {
                        return parse_identity_end(s, end, (tid, Some(pid)));
                    },
                    None => {},
                }
            }
            parse_identity_end(s, after, (tid, None))
        },
    }
}

/// A mandatory separator: one or more whitespace bytes.
pub open spec fn spec_separator(r: Seq<u8>) -> Result<Seq<u8>, ParseError> {
    if r.len() == 0 {
        Err(ParseError::UnexpectedEndOfInput)
    } else if !ByteClass::Space.has(r[0]) {
        Err(ParseError::MissingSeparator)
    } else {
        Ok(r.skip(run_len(r, ByteClass::Space) as int))
    }
}

/// Skips the mandatory separator at `pos`.
pub fn parse_separator(s: &[u8], pos: usize) -> (r: Result<usize, ParseError>)
    requires
        pos <= s.len(),
    ensures
        match r {
            Ok(end) => {
                &&& pos < end <= s.len()
                &&& spec_separator(s@.skip(pos as int)) == Ok::<Seq<u8>, ParseError>(
                    s@.skip(end as int),
                )
                &&& all_in(s@.subrange(pos as int, end as int), ByteClass::Space)
            },
            Err(e) => spec_separator(s@.skip(pos as int)) == Err::<Seq<u8>, ParseError>(e),
        },
{
    if pos >= s.len() {
        return Err(ParseError::UnexpectedEndOfInput);
    }
    if !ByteClass::Space.contains(s[pos]) {
        return Err(ParseError::MissingSeparator);
    }
    let end = scan(s, pos, ByteClass::Space);
    proof {
        let r = s@.skip(pos as int);
        lemma_run_len(r, ByteClass::Space);
        assert(s@.subrange(pos as int, end as int) =~= r.take(end - pos));
        assert(s@.skip(end as int) =~= r.skip(end - pos));
    }
    Ok(end)
}

/// Skips the run of `class` at `pos`, which may be empty.
pub fn skip_run(s: &[u8], pos: usize, class: ByteClass) -> (end: usize)
    requires
        pos <= s.len(),
    ensures
        pos <= end <= s.len(),
        s@.skip(end as int) == s@.skip(pos as int).skip(run_len(s@.skip(pos as int), class) as int),
{
    let end = scan(s, pos, class);
    assert(s@.skip(end as int) =~= s@.skip(pos as int).skip(end - pos));
    end
}

} // verus!
