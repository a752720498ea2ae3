//! Scanner for one raw log record.  A record is used for schema
//! purposes only when it is a top-level JSON object; the scanner
//! returns its top-level members in order.  Nested arrays and objects
//! are kept opaque: their span is captured by bracket balance with
//! string awareness, and their internals are never interpreted.
//!
//! The grammar is given by the `spec` functions below; every executable
//! scanner is proved to return exactly what they define.
use vstd::prelude::*;

use crate::text::{chars_of, string_of};

verus! {

/// One JSON value found at the top level of a record object, reduced to
/// what schema inference reads: its kind, and for scalar kinds its
/// payload.  Numeric payloads live on a signed 64-bit axis; a `real`'s
/// fractional digits are dropped and its magnitude saturates at the
/// axis ends.
#[derive(Clone, Debug, PartialEq)]
pub enum JsonValue {
    Null,
    True,
    False,
    /// An integer literal (no fraction, no exponent).
    Int(i64),
    /// A number with a fraction or exponent, truncated toward zero.
    Real(i64),
    /// A string literal, with escapes decoded.
    Text(String),
    /// An array; the payload is its raw text span.
    Arr(String),
    /// An object; the payload is its raw text span.
    Obj(String),
}

/// Specification-level counterpart of `JsonValue`.
pub enum JsonSpecValue {
    Null,
    True,
    False,
    Int(i64),
    Real(i64),
    Text(Seq<char>),
    Arr(Seq<char>),
    Obj(Seq<char>),
}

impl View for JsonValue {
    type V = JsonSpecValue;

    open spec fn view(&self) -> JsonSpecValue {
        match self {
            JsonValue::Null => JsonSpecValue::Null,
            JsonValue::True => JsonSpecValue::True,
            JsonValue::False => JsonSpecValue::False,
            JsonValue::Int(n) => JsonSpecValue::Int(*n),
            JsonValue::Real(n) => JsonSpecValue::Real(*n),
            JsonValue::Text(s) => JsonSpecValue::Text(s@),
            JsonValue::Arr(s) => JsonSpecValue::Arr(s@),
            JsonValue::Obj(s) => JsonSpecValue::Obj(s@),
        }
    }
}

/// A record's top-level members, in the order they stand in its text.
pub type Members = Vec<(String, JsonValue)>;

/// The view of a member list: key characters and spec values.
pub open spec fn members_view(m: Seq<(String, JsonValue)>) -> Seq<(Seq<char>, JsonSpecValue)> {
    m.map(|_i: int, p: (String, JsonValue)| (p.0@, p.1@))
}

/// The saturation cap of the numeric axis: i64::MAX as a magnitude.
pub open spec fn num_cap() -> u64 {
    0x7fff_ffff_ffff_ffff
}

pub open spec fn is_ws(c: char) -> bool {
    c == ' ' || c == '\t' || c == '\n' || c == '\r'
}

/// First index at or after `i` that holds no whitespace.
pub open spec fn skip_ws(s: Seq<char>, i: int) -> int
    decreases s.len() - i,
{
    if 0 <= i < s.len() && is_ws(s[i]) {
        skip_ws(s, i + 1)
    } else {
        i
    }
}

pub open spec fn hex_digit(c: char) -> int {
    let u = c as u32;
    if 48 <= u <= 57 {
        u - 48
    } else if 65 <= u <= 70 {
        u - 55
    } else if 97 <= u <= 102 {
        u - 87
    } else {
        -1
    }
}

/// The value of the four hex digits at `i`, or -1 when they are not
/// four hex digits.
pub open spec fn hex4(s: Seq<char>, i: int) -> int {
    if 0 <= i && i + 4 <= s.len() && hex_digit(s[i]) >= 0 && hex_digit(s[i + 1]) >= 0 && hex_digit(
        s[i + 2],
    ) >= 0 && hex_digit(s[i + 3]) >= 0 {
        hex_digit(s[i]) * 4096 + hex_digit(s[i + 1]) * 256 + hex_digit(s[i + 2]) * 16 + hex_digit(
            s[i + 3],
        )
    } else {
        -1
    }
}

/// The scalar value written by a surrogate pair.
pub open spec fn surrogate_scalar(h: int, l: int) -> int {
    0x10000 + (h - 0xD800) * 0x400 + (l - 0xDC00)
}

/// Scan the inside of a string literal from `i` (just past the opening
/// quote), decoding escapes into `acc`; on success, the index just past
/// the closing quote and the decoded characters.
pub open spec fn scan_string(s: Seq<char>, i: int, acc: Seq<char>) -> Option<(int, Seq<char>)>
    decreases s.len() - i,
{
    if !(0 <= i < s.len()) {
        None
    } else if s[i] == '"' {
        Some((i + 1, acc))
    } else if s[i] == '\\' {
        if i + 1 >= s.len() {
            None
        } else {
            let e = s[i + 1];
            if e == '"' {
                scan_string(s, i + 2, acc.push('"'))
            } else if e == '\\' {
                scan_string(s, i + 2, acc.push('\\'))
            } else if e == '/' {
                scan_string(s, i + 2, acc.push('/'))
            } else if e == 'b' {
                scan_string(s, i + 2, acc.push('\u{8}'))
            } else if e == 'f' {
                scan_string(s, i + 2, acc.push('\u{c}'))
            } else if e == 'n' {
                scan_string(s, i + 2, acc.push('\n'))
            } else if e == 'r' {
                scan_string(s, i + 2, acc.push('\r'))
            } else if e == 't' {
                scan_string(s, i + 2, acc.push('\t'))
            } else if e == 'u' {
                let h = hex4(s, i + 2);
                if h < 0 {
                    None
                } else if 0xD800 <= h <= 0xDBFF {
                    if i + 12 <= s.len() && s[i + 6] == '\\' && s[i + 7] == 'u' {
                        let l = hex4(s, i + 8);
                        if 0xDC00 <= l <= 0xDFFF {
                            scan_string(s, i + 12, acc.push(surrogate_scalar(h, l) as char))
                        } else {
                            None
                        }
                    } else {
                        None
                    }
                } else if 0xDC00 <= h <= 0xDFFF {
                    None
                } else {
                    scan_string(s, i + 6, acc.push(h as char))
                }
            } else {
                None
            }
        }
    } else {
        scan_string(s, i + 1, acc.push(s[i]))
    }
}

pub open spec fn dig_val(c: char) -> int {
    let u = c as u32;
    if 48 <= u <= 57 {
        u - 48
    } else {
        -1
    }
}

pub open spec fn is_digit(c: char) -> bool {
    48 <= c as u32 <= 57
}

/// Append one decimal digit to a magnitude, saturating at the cap.
pub open spec fn push_digit(m: u64, d: int) -> u64 {
    if m <= 922_337_203_685_477_579 {
        (10 * m + d) as u64
    } else {
        num_cap()
    }
}

/// Fold the run of digits starting at `i` into `m`; the first index
/// past the run and the folded magnitude.
pub open spec fn scan_digits(s: Seq<char>, i: int, m: u64) -> (int, u64)
    decreases s.len() - i,
{
    if 0 <= i < s.len() && is_digit(s[i]) {
        scan_digits(s, i + 1, push_digit(m, dig_val(s[i])))
    } else {
        (i, m)
    }
}

/// Multiply by ten `e` times, saturating at the cap.
pub open spec fn scale_up(m: u64, e: int) -> u64
    decreases e,
{
    if e <= 0 {
        m
    } else if m > 922_337_203_685_477_580 {
        num_cap()
    } else {
        scale_up((10 * m) as u64, e - 1)
    }
}

/// Divide by ten `e` times.
pub open spec fn scale_down(m: u64, e: int) -> u64
    decreases e,
{
    if e <= 0 {
        m
    } else {
        scale_down((m / 10) as u64, e - 1)
    }
}

/// Sign a magnitude onto the numeric axis.
pub open spec fn signed_of(neg: bool, m: u64) -> i64 {
    if neg {
        (0 - m as int) as i64
    } else {
        m as i64
    }
}

/// Scan a number literal at `i`: the index past it, whether it is a
/// `real` (fraction or exponent present), and its axis value.
pub open spec fn scan_number(s: Seq<char>, i: int) -> Option<(int, bool, i64)> {
    if !(0 <= i < s.len()) {
        None
    } else {
        let neg = s[i] == '-';
        let i1 = if neg {
            i + 1
        } else {
            i
        };
        if !(i1 < s.len() && is_digit(s[i1])) {
            None
        } else {
            let (i2, m) = scan_digits(s, i1, 0);
            let has_frac = i2 < s.len() && s[i2] == '.';
            if has_frac && !(i2 + 1 < s.len() && is_digit(s[i2 + 1])) {
                None
            } else {
                let i3 = if has_frac {
                    scan_digits(s, i2 + 1, 0).0
                } else {
                    i2
                };
                let has_exp = i3 < s.len() && (s[i3] == 'e' || s[i3] == 'E');
                if has_exp {
                    let has_sign = i3 + 1 < s.len() && (s[i3 + 1] == '+' || s[i3 + 1] == '-');
                    let eneg = i3 + 1 < s.len() && s[i3 + 1] == '-';
                    let i4 = if has_sign {
                        i3 + 2
                    } else {
                        i3 + 1
                    };
                    if !(i4 < s.len() && is_digit(s[i4])) {
                        None
                    } else {
                        let (i5, em) = scan_digits(s, i4, 0);
                        let e = if em > 1000 {
                            1000
                        } else {
                            em as int
                        };
                        let mm = if eneg {
                            scale_down(m, e)
                        } else {
                            scale_up(m, e)
                        };
                        Some((i5, true, signed_of(neg, mm)))
                    }
                } else {
                    Some((i3, has_frac, signed_of(neg, m)))
                }
            }
        }
    }
}

/// Skip one composite (array or object) by bracket balance, staying
/// aware of string literals; `i` is at or inside the composite and
/// `depth` counts open brackets.  On success, the index just past the
/// bracket that closes the outermost one.
pub open spec fn scan_composite(s: Seq<char>, i: int, depth: int) -> Option<int>
    decreases s.len() - i,
{
    if !(0 <= i < s.len()) {
        None
    } else if s[i] == '{' || s[i] == '[' {
        scan_composite(s, i + 1, depth + 1)
    } else if s[i] == '}' || s[i] == ']' {
        if depth == 1 {
            Some(i + 1)
        } else if depth <= 0 {
            None
        } else {
            scan_composite(s, i + 1, depth - 1)
        }
    } else if s[i] == '"' {
        match scan_string(s, i + 1, Seq::empty()) {
            None => None,
            Some((j, _)) => if j <= i || j > s.len() {
                None
            } else {
                scan_composite(s, j, depth)
            },
        }
    } else {
        scan_composite(s, i + 1, depth)
    }
}

/// Scan one value at `i`: the index past it and its reduced form.
pub open spec fn scan_value(s: Seq<char>, i: int) -> Option<(int, JsonSpecValue)> {
    if !(0 <= i < s.len()) {
        None
    } else if s[i] == '"' {
        match scan_string(s, i + 1, Seq::empty()) {
            None => None,
            Some((j, acc)) => Some((j, JsonSpecValue::Text(acc))),
        }
    } else if s[i] == '{' {
        match scan_composite(s, i, 0) {
            None => None,
            Some(j) => Some((j, JsonSpecValue::Obj(s.subrange(i, j)))),
        }
    } else if s[i] == '[' {
        match scan_composite(s, i, 0) {
            None => None,
            Some(j) => Some((j, JsonSpecValue::Arr(s.subrange(i, j)))),
        }
    } else if s[i] == 't' {
        if i + 4 <= s.len() && s[i + 1] == 'r' && s[i + 2] == 'u' && s[i + 3] == 'e' {
            Some((i + 4, JsonSpecValue::True))
        } else {
            None
        }
    } else if s[i] == 'f' {
        if i + 5 <= s.len() && s[i + 1] == 'a' && s[i + 2] == 'l' && s[i + 3] == 's' && s[i + 4]
            == 'e' {
            Some((i + 5, JsonSpecValue::False))
        } else {
            None
        }
    } else if s[i] == 'n' {
        if i + 4 <= s.len() && s[i + 1] == 'u' && s[i + 2] == 'l' && s[i + 3] == 'l' {
            Some((i + 4, JsonSpecValue::Null))
        } else {
            None
        }
    } else if s[i] == '-' || is_digit(s[i]) {
        match scan_number(s, i) {
            None => None,
            Some((j, isr, v)) => Some(
                (
                    j,
                    if isr {
                        JsonSpecValue::Real(v)
                    } else {
                        JsonSpecValue::Int(v)
                    },
                ),
            ),
        }
    } else {
        None
    }
}

/// Scan the members of the record object from `i`, which must stand on
/// the opening quote of a key; on success, the index just past the
/// closing `}` and the members gathered into `acc`.
pub open spec fn scan_members(
    s: Seq<char>,
    i: int,
    acc: Seq<(Seq<char>, JsonSpecValue)>,
) -> Option<(int, Seq<(Seq<char>, JsonSpecValue)>)>
    decreases s.len() - i,
{
    if !(0 <= i < s.len()) {
        None
    } else if s[i] != '"' {
        None
    } else {
        match scan_string(s, i + 1, Seq::empty()) {
            None => None,
            Some((j, key)) => {
                let j2 = skip_ws(s, j);
                if !(0 <= j2 < s.len() && s[j2] == ':') {
                    None
                } else {
                    let j3 = skip_ws(s, j2 + 1);
                    match scan_value(s, j3) {
                        None => None,
                        Some((j4, v)) => {
                            let acc2 = acc.push((key, v));
                            let j5 = skip_ws(s, j4);
                            if 0 <= j5 < s.len() && s[j5] == ',' {
                                let j6 = skip_ws(s, j5 + 1);
                                if j6 <= i || j6 > s.len() {
                                    None
                                } else {
                                    scan_members(s, j6, acc2)
                                }
                            } else if 0 <= j5 < s.len() && s[j5] == '}' {
                                Some((j5 + 1, acc2))
                            } else {
                                None
                            }
                        },
                    }
                }
            },
        }
    }
}

/// The reading of one raw record: its top-level members when the whole
/// text is one object under the grammar above, `None` otherwise.  A
/// record that is not an object (or does not scan) is skipped for
/// schema purposes while its raw text stays stored.
pub open spec fn parse_record_spec(s: Seq<char>) -> Option<Seq<(Seq<char>, JsonSpecValue)>> {
    let i = skip_ws(s, 0);
    if !(0 <= i < s.len() && s[i] == '{') {
        None
    } else {
        let j = skip_ws(s, i + 1);
        if 0 <= j < s.len() && s[j] == '}' {
            if skip_ws(s, j + 1) == s.len() {
                Some(Seq::empty())
            } else {
                None
            }
        } else {
            match scan_members(s, j, Seq::empty()) {
                None => None,
                Some((k, mem)) => if skip_ws(s, k) == s.len() {
                    Some(mem)
                } else {
                    None
                },
            }
        }
    }
}

/// Relies on char::from_u32: it returns the character with the given
/// code exactly for valid Unicode scalar values, which the caller must
/// supply.
#[verifier::external_body]
fn char_of_code(v: u32) -> (c: char)
    requires
        v < 0xD800 || (0xE000 <= v && v <= 0x10FFFF),
    ensures
        c == v as char,
{
    char::from_u32(v).unwrap()
}

fn skip_ws_x(s: &Vec<char>, i: usize) -> (r: usize)
    requires
        i <= s@.len(),
    ensures
        r == skip_ws(s@, i as int),
        i <= r <= s@.len(),
{
    let mut cur = i;
    while cur < s.len() && (s[cur] == ' ' || s[cur] == '\t' || s[cur] == '\n' || s[cur] == '\r')
        invariant
            i <= cur <= s@.len(),
            skip_ws(s@, i as int) == skip_ws(s@, cur as int),
        decreases s@.len() - cur,
    {
        cur = cur + 1;
    }
    cur
}

fn hex4_x(s: &Vec<char>, i: usize) -> (r: Option<u32>)
    requires
        i <= s@.len(),
    ensures
        match r {
            None => hex4(s@, i as int) == -1,
            Some(v) => v == hex4(s@, i as int) && v <= 0xFFFF,
        },
{
    if s.len() - i < 4 {
        return None;
    }
    let d0 = hex_digit_x(s[i]);
    let d1 = hex_digit_x(s[i + 1]);
    let d2 = hex_digit_x(s[i + 2]);
    let d3 = hex_digit_x(s[i + 3]);
    if d0 < 0 || d1 < 0 || d2 < 0 || d3 < 0 {
        return None;
    }
    Some((d0 as u32) * 4096 + (d1 as u32) * 256 + (d2 as u32) * 16 + (d3 as u32))
}

fn hex_digit_x(c: char) -> (r: i32)
    ensures
        r == hex_digit(c),
        r <= 15,
{
    let u = c as u32;
    if 48 <= u && u <= 57 {
        (u - 48) as i32
    } else if 65 <= u && u <= 70 {
        (u - 55) as i32
    } else if 97 <= u && u <= 102 {
        (u - 87) as i32
    } else {
        -1
    }
}

fn scan_string_x(s: &Vec<char>, i: usize) -> (r: Option<(usize, Vec<char>)>)
    requires
        i <= s@.len(),
    ensures
        match r {
            None => scan_string(s@, i as int, Seq::empty()) is None,
            Some(p) => scan_string(s@, i as int, Seq::empty()) == Some((p.0 as int, p.1@))
                && i < p.0 <= s@.len(),
        },
{
    let mut cur = i;
    let mut acc: Vec<char> = Vec::new();
    loop
        invariant
            i <= cur <= s@.len(),
            scan_string(s@, i as int, Seq::empty()) == scan_string(s@, cur as int, acc@),
        decreases s@.len() - cur,
    {
        if cur == s.len() {
            return None;
        }
        let c = s[cur];
        if c == '"' {
            return Some((cur + 1, acc));
        } else if c == '\\' {
            if cur + 1 >= s.len() {
                return None;
            }
            let e = s[cur + 1];
            if e == '"' {
                acc.push('"');
                cur = cur + 2;
            } else if e == '\\' {
                acc.push('\\');
                cur = cur + 2;
            } else if e == '/' {
                acc.push('/');
                cur = cur + 2;
            } else if e == 'b' {
                acc.push('\u{8}');
                cur = cur + 2;
            } else if e == 'f' {
                acc.push('\u{c}');
                cur = cur + 2;
            } else if e == 'n' {
                acc.push('\n');
                cur = cur + 2;
            } else if e == 'r' {
                acc.push('\r');
                cur = cur + 2;
            } else if e == 't' {
                acc.push('\t');
                cur = cur + 2;
            } else if e == 'u' {
                let h = match hex4_x(s, cur + 2) {
                    None => {
                        return None;
                    },
                    Some(h) => h,
                };
                if 0xD800 <= h && h <= 0xDBFF {
                    if 12 <= s.len() - cur && s[cur + 6] == '\\' && s[cur + 7] == 'u' {
                        let l = match hex4_x(s, cur + 8) {
                            None => {
                                return None;
                            },
                            Some(l) => l,
                        };
                        if 0xDC00 <= l && l <= 0xDFFF {
                            let code: u32 = 0x10000 + (h - 0xD800) * 0x400 + (l - 0xDC00);
                            acc.push(char_of_code(code));
                            cur = cur + 12;
                        } else {
                            return None;
                        }
                    } else {
                        return None;
                    }
                } else if 0xDC00 <= h && h <= 0xDFFF {
                    return None;
                } else {
                    acc.push(char_of_code(h));
                    cur = cur + 6;
                }
            } else {
                return None;
            }
        } else {
            acc.push(c);
            cur = cur + 1;
        }
    }
}

fn scan_digits_x(s: &Vec<char>, i: usize, m: u64) -> (r: (usize, u64))
    requires
        i <= s@.len(),
        m <= num_cap(),
    ensures
        (r.0 as int, r.1) == scan_digits(s@, i as int, m),
        i <= r.0 <= s@.len(),
        r.1 <= num_cap(),
{
    let mut cur = i;
    let mut acc = m;
    while cur < s.len() && is_digit_x(s[cur])
        invariant
            i <= cur <= s@.len(),
            acc <= num_cap(),
            scan_digits(s@, i as int, m) == scan_digits(s@, cur as int, acc),
        decreases s@.len() - cur,
    {
        let d = (s[cur] as u32 - 48) as u64;
        if acc <= 922_337_203_685_477_579 {
            acc = 10 * acc + d;
        } else {
            acc = 0x7fff_ffff_ffff_ffff;
        }
        cur = cur + 1;
    }
    (cur, acc)
}

fn scale_up_x(m: u64, e: u64) -> (r: u64)
    requires
        m <= num_cap(),
    ensures
        r == scale_up(m, e as int),
        r <= num_cap(),
{
    let mut acc = m;
    let mut k = e;
    while k > 0
        invariant
            acc <= num_cap(),
            scale_up(m, e as int) == scale_up(acc, k as int),
        decreases k,
    {
        if acc > 922_337_203_685_477_580 {
            let ghost k0 = k as int;
            assert(scale_up(acc, k0) == num_cap());
            acc = 0x7fff_ffff_ffff_ffff;
            k = 0;
        } else {
            acc = 10 * acc;
            k = k - 1;
        }
    }
    acc
}

fn scale_down_x(m: u64, e: u64) -> (r: u64)
    requires
        m <= num_cap(),
    ensures
        r == scale_down(m, e as int),
        r <= num_cap(),
{
    let mut acc = m;
    let mut k = e;
    while k > 0
        invariant
            acc <= num_cap(),
            scale_down(m, e as int) == scale_down(acc, k as int),
        decreases k,
    {
        acc = acc / 10;
        k = k - 1;
    }
    acc
}

fn scan_number_x(s: &Vec<char>, i: usize) -> (r: Option<(usize, bool, i64)>)
    requires
        i <= s@.len(),
    ensures
        match r {
            None => scan_number(s@, i as int) is None,
            Some(p) => scan_number(s@, i as int) == Some((p.0 as int, p.1, p.2)) && i <= p.0
                <= s@.len(),
        },
{
    if i >= s.len() {
        return None;
    }
    let neg = s[i] == '-';
    let i1 = if neg {
        i + 1
    } else {
        i
    };
    if !(i1 < s.len() && is_digit_x(s[i1])) {
        return None;
    }
    let (i2, m) = scan_digits_x(s, i1, 0);
    let has_frac = i2 < s.len() && s[i2] == '.';
    if has_frac && !(i2 + 1 < s.len() && is_digit_x(s[i2 + 1])) {
        return None;
    }
    let i3 = if has_frac {
        scan_digits_x(s, i2 + 1, 0).0
    } else {
        i2
    };
    let has_exp = i3 < s.len() && (s[i3] == 'e' || s[i3] == 'E');
    if has_exp {
        let has_sign = i3 + 1 < s.len() && (s[i3 + 1] == '+' || s[i3 + 1] == '-');
        let eneg = i3 + 1 < s.len() && s[i3 + 1] == '-';
        let i4 = if has_sign {
            i3 + 2
        } else {
            i3 + 1
        };
        if !(i4 < s.len() && is_digit_x(s[i4])) {
            return None;
        }
        let (i5, em) = scan_digits_x(s, i4, 0);
        let e = if em > 1000 {
            1000
        } else {
            em
        };
        let mm = if eneg {
            scale_down_x(m, e)
        } else {
            scale_up_x(m, e)
        };
        Some((i5, true, signed_x(neg, mm)))
    } else {
        Some((i3, has_frac, signed_x(neg, m)))
    }
}

fn is_digit_x(c: char) -> (r: bool)
    ensures
        r == is_digit(c),
{
    let u = c as u32;
    48 <= u && u <= 57
}

fn signed_x(neg: bool, m: u64) -> (r: i64)
    requires
        m <= num_cap(),
    ensures
        r == signed_of(neg, m),
{
    if neg {
        -(m as i64)
    } else {
        m as i64
    }
}

fn scan_composite_x(s: &Vec<char>, i: usize) -> (r: Option<usize>)
    requires
        i <= s@.len(),
    ensures
        match r {
            None => scan_composite(s@, i as int, 0) is None,
            Some(j) => scan_composite(s@, i as int, 0) == Some(j as int) && i < j <= s@.len(),
        },
{
    let mut cur = i;
    let mut depth: usize = 0;
    loop
        invariant
            i <= cur <= s@.len(),
            depth <= cur - i,
            scan_composite(s@, i as int, 0) == scan_composite(s@, cur as int, depth as int),
        decreases s@.len() - cur,
    {
        if cur == s.len() {
            return None;
        }
        let c = s[cur];
        if c == '{' || c == '[' {
            depth = depth + 1;
            cur = cur + 1;
        } else if c == '}' || c == ']' {
            if depth == 1 {
                return Some(cur + 1);
            } else if depth == 0 {
                return None;
            } else {
                depth = depth - 1;
                cur = cur + 1;
            }
        } else if c == '"' {
            match scan_string_x(s, cur + 1) {
                None => {
                    return None;
                },
                Some((j, _)) => {
                    cur = j;
                },
            }
        } else {
            cur = cur + 1;
        }
    }
}

fn scan_value_x(s: &Vec<char>, i: usize) -> (r: Option<(usize, JsonValue)>)
    requires
        i <= s@.len(),
    ensures
        match r {
            None => scan_value(s@, i as int) is None,
            Some(p) => scan_value(s@, i as int) == Some((p.0 as int, p.1@)) && i <= p.0
                <= s@.len(),
        },
{
    if i >= s.len() {
        return None;
    }
    let c = s[i];
    if c == '"' {
        match scan_string_x(s, i + 1) {
            None => None,
            Some((j, acc)) => Some((j, JsonValue::Text(string_of(&acc)))),
        }
    } else if c == '{' {
        match scan_composite_x(s, i) {
            None => None,
            Some(j) => {
                let raw = copy_range(s, i, j);
                Some((j, JsonValue::Obj(string_of(&raw))))
            },
        }
    } else if c == '[' {
        match scan_composite_x(s, i) {
            None => None,
            Some(j) => {
                let raw = copy_range(s, i, j);
                Some((j, JsonValue::Arr(string_of(&raw))))
            },
        }
    } else if c == 't' {
        if 4 <= s.len() - i && s[i + 1] == 'r' && s[i + 2] == 'u' && s[i + 3] == 'e' {
            Some((i + 4, JsonValue::True))
        } else {
            None
        }
    } else if c == 'f' {
        if 5 <= s.len() - i && s[i + 1] == 'a' && s[i + 2] == 'l' && s[i + 3] == 's' && s[i + 4]
            == 'e' {
            Some((i + 5, JsonValue::False))
        } else {
            None
        }
    } else if c == 'n' {
        if 4 <= s.len() - i && s[i + 1] == 'u' && s[i + 2] == 'l' && s[i + 3] == 'l' {
            Some((i + 4, JsonValue::Null))
        } else {
            None
        }
    } else if c == '-' || is_digit_x(c) {
        match scan_number_x(s, i) {
            None => None,
            Some((j, isr, v)) => Some(
                (
                    j,
                    if isr {
                        JsonValue::Real(v)
                    } else {
                        JsonValue::Int(v)
                    },
                ),
            ),
        }
    } else {
        None
    }
}

fn copy_range(s: &Vec<char>, i: usize, j: usize) -> (r: Vec<char>)
    requires
        i <= j <= s@.len(),
    ensures
        r@ == s@.subrange(i as int, j as int),
{
    let mut out: Vec<char> = Vec::new();
    let mut k = i;
    while k < j
        invariant
            i <= k <= j <= s@.len(),
            out@ == s@.subrange(i as int, k as int),
        decreases j - k,
    {
        out.push(s[k]);
        assert(out@ =~= s@.subrange(i as int, k + 1));
        k = k + 1;
    }
    out
}

/// Read one raw record.  Returns its top-level members exactly when the
/// record text is one JSON object under the library's grammar.
#[verifier::rlimit(60)]
pub fn parse_record(s: &str) -> (r: Option<Members>)
    ensures
        match r {
            None => parse_record_spec(s@) is None,
            Some(m) => parse_record_spec(s@) == Some(members_view(m@)),
        },
{
    let t = chars_of(s);
    let i = skip_ws_x(&t, 0);
    if !(i < t.len() && t[i] == '{') {
        return None;
    }
    let j = skip_ws_x(&t, i + 1);
    if j < t.len() && t[j] == '}' {
        if skip_ws_x(&t, j + 1) == t.len() {
            let m: Members = Vec::new();
            assert(members_view(m@) =~= Seq::<(Seq<char>, JsonSpecValue)>::empty());
            return Some(m);
        } else {
            return None;
        }
    }
    let mut acc: Members = Vec::new();
    let mut cur = j;
    proof {
        assert(members_view(acc@) =~= Seq::<(Seq<char>, JsonSpecValue)>::empty());
    }
    loop
        invariant
            cur <= t@.len(),
            t@ == s@,
            scan_members(t@, j as int, Seq::empty()) == scan_members(
                t@,
                cur as int,
                members_view(acc@),
            ),
            parse_record_spec(s@) == (match scan_members(t@, j as int, Seq::empty()) {
                None => None::<Seq<(Seq<char>, JsonSpecValue)>>,
                Some((k, mem)) => if skip_ws(t@, k) == t@.len() {
                    Some(mem)
                } else {
                    None
                },
            }),
        decreases t@.len() - cur,
    {
        if cur >= t.len() {
            return None;
        }
        if t[cur] != '"' {
            return None;
        }
        let (j1, key) = match scan_string_x(&t, cur + 1) {
            None => {
                return None;
            },
            Some(p) => p,
        };
        let j2 = skip_ws_x(&t, j1);
        if !(j2 < t.len() && t[j2] == ':') {
            return None;
        }
        let j3 = skip_ws_x(&t, j2 + 1);
        let (j4, v) = match scan_value_x(&t, j3) {
            None => {
                return None;
            },
            Some(p) => p,
        };
        let ghost acc_pre = members_view(acc@);
        acc.push((string_of(&key), v));
        proof {
            assert(members_view(acc@) =~= acc_pre.push((key@, v@)));
        }
        let j5 = skip_ws_x(&t, j4);
        if j5 < t.len() && t[j5] == ',' {
            let j6 = skip_ws_x(&t, j5 + 1);
            if j6 <= cur {
                return None;
            }
            cur = j6;
        } else if j5 < t.len() && t[j5] == '}' {
            if skip_ws_x(&t, j5 + 1) == t.len() {
                return Some(acc);
            } else {
                return None;
            }
        } else {
            return None;
        }
    }
}

} // verus!
