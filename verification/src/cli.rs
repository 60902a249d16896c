//! Command-line helpers of the `egorec-mp4` converter: its usage text and
//! the parsing of numeric arguments.
use vstd::prelude::*;
use crate::text::text;

verus! {

/// Why an unsigned integer did not parse.
pub enum ParseFailure {
    Empty,
    InvalidDigit,
    PosOverflow,
}

pub open spec fn is_ascii_digit(c: char) -> bool {
    '0' <= c <= '9'
}

/// Reads decimal digits left to right onto `acc`: the first character that
/// is not a digit, or the first digit that takes the value past `max`,
/// stops the reading with that failure.
pub open spec fn read_digits(ds: Seq<char>, acc: int, max: int) -> Result<int, ParseFailure>
    decreases ds.len(),
{
    if ds.len() == 0 {
        Ok(acc)
    } else if !is_ascii_digit(ds[0]) {
        Err(ParseFailure::InvalidDigit)
    } else if acc * 10 + (ds[0] as int - 48) > max {
        Err(ParseFailure::PosOverflow)
    } else {
        read_digits(ds.drop_first(), acc * 10 + (ds[0] as int - 48), max)
    }
}

/// How std parses an unsigned integer no greater than `max` from `s`: an
/// optional `+`, then decimal digits.
pub open spec fn parse_unsigned(s: Seq<char>, max: int) -> Result<int, ParseFailure> {
    if s.len() == 0 {
        Err(ParseFailure::Empty)
    } else if (s[0] == '+' || s[0] == '-') && s.len() == 1 {
        Err(ParseFailure::InvalidDigit)
    } else if s[0] == '+' {
        read_digits(s.drop_first(), 0, max)
    } else {
        read_digits(s, 0, max)
    }
}

/// The text std gives each failure.
pub open spec fn failure_text(f: ParseFailure) -> Seq<char> {
    match f {
        ParseFailure::Empty => "cannot parse integer from empty string"@,
        ParseFailure::InvalidDigit => "invalid digit found in string"@,
        ParseFailure::PosOverflow => "number too large to fit in target type"@,
    }
}

fn parse_unsigned_exec(s: &str, max: u64) -> (r: Result<u64, ParseFailure>)
    requires
        max >= 9,
    ensures
        match parse_unsigned(s@, max as int) {
            Ok(v) => r matches Ok(x) && x == v,
            Err(f) => r matches Err(g) && g == f,
        },
        r matches Ok(x) ==> x <= max,
{
    let n = s.unicode_len();
    if n == 0 {
        return Err(ParseFailure::Empty);
    }
    let first = s.get_char(0);
    if (first == '+' || first == '-') && n == 1 {
        return Err(ParseFailure::InvalidDigit);
    }
    let mut i: usize = if first == '+' { 1 } else { 0 };
    let ghost ds = if first == '+' { s@.drop_first() } else { s@ };
    assert(ds =~= s@.subrange(i as int, n as int));
    let mut acc: u64 = 0;
    while i < n
        invariant
            i <= n == s@.len(),
            9 <= max,
            acc <= max,
            parse_unsigned(s@, max as int) == read_digits(s@.subrange(i as int, n as int), acc as int, max as int),
        decreases n - i,
    {
        let ghost rest = s@.subrange(i as int, n as int);
        assert(rest.drop_first() =~= s@.subrange(i + 1, n as int));
        let c = s.get_char(i);
        if !(c >= '0' && c <= '9') {
            return Err(ParseFailure::InvalidDigit);
        }
        let d = (c as u32 - 48) as u64;
        if acc > (max - d) / 10 {
            assert(acc * 10 + d > max) by (nonlinear_arith)
                requires acc > (max - d) / 10, d <= 9, d <= max || d > max;
            return Err(ParseFailure::PosOverflow);
        }
        assert(acc * 10 + d <= max) by (nonlinear_arith)
            requires acc <= (max - d) / 10, d <= max || acc * 10 + d <= max;
        acc = acc * 10 + d;
        i += 1;
    }
    Ok(acc)
}

/// `invalid FIELD: REASON` for a failed parse.
pub open spec fn invalid_field(field: Seq<char>, f: ParseFailure) -> Seq<char> {
    "invalid "@ + field + ": "@ + failure_text(f)
}

fn invalid_message(field: &str, f: ParseFailure) -> (m: String)
    ensures
        m@ == invalid_field(field@, f),
{
    let mut m = text("invalid ");
    m.append(field);
    m.append(": ");
    match f {
        ParseFailure::Empty => m.append("cannot parse integer from empty string"),
        ParseFailure::InvalidDigit => m.append("invalid digit found in string"),
        ParseFailure::PosOverflow => m.append("number too large to fit in target type"),
    }
    m
}

/// Parses a `u32` command-line value; the error names the field.
pub fn parse_u32(value: &str, field: &str) -> (r: Result<u32, String>)
    ensures
        match parse_unsigned(value@, u32::MAX as int) {
            Ok(v) => r matches Ok(x) && x == v,
            Err(f) => r matches Err(e) && e@ == invalid_field(field@, f),
        },
{
    match parse_unsigned_exec(value, u32::MAX as u64) {
        Ok(v) => Ok(v as u32),
        Err(f) => Err(invalid_message(field, f)),
    }
}

/// Parses a `u64` command-line value; the error names the field.
pub fn parse_u64(value: &str, field: &str) -> (r: Result<u64, String>)
    ensures
        match parse_unsigned(value@, u64::MAX as int) {
            Ok(v) => r matches Ok(x) && x == v,
            Err(f) => r matches Err(e) && e@ == invalid_field(field@, f),
        },
{
    match parse_unsigned_exec(value, u64::MAX) {
        Ok(v) => Ok(v),
        Err(f) => Err(invalid_message(field, f)),
    }
}

/// The usage text, naming the program.
pub open spec fn usage_text(program: Seq<char>) -> Seq<char> {
    "Usage:\n  "@ + program + " <input.egorec> <output.mp4>\n  "@ + program + " mp4 <input.egorec> <output.mp4>\n  "@
        + program + " init <input.egorec> <output.mp4> <timescale> <sample_delta>\n  "@ + program
        + " segment <input.egorec> <output.m4s> <timescale> <sample_delta> <sequence_number> <base_decode_time>"@
}

/// The usage text of the converter run as `program`.
pub fn usage(program: &str) -> (u: String)
    ensures
        u@ == usage_text(program@),
{
    let mut u = text("Usage:\n  ");
    u.append(program);
    u.append(" <input.egorec> <output.mp4>\n  ");
    u.append(program);
    u.append(" mp4 <input.egorec> <output.mp4>\n  ");
    u.append(program);
    u.append(" init <input.egorec> <output.mp4> <timescale> <sample_delta>\n  ");
    u.append(program);
    u.append(" segment <input.egorec> <output.m4s> <timescale> <sample_delta> <sequence_number> <base_decode_time>");
    u
}

} // verus!
