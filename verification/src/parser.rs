//! The recursive-descent parser: UTF-8 text to a document value.
//!
//! Whitespace is skipped around every token.  At a value position the
//! alternatives are, in order: string, number, the `true`/`false`/`null`
//! literals, array, object.  String literals interpret the standard
//! escape sequences; numbers are decimal literals with optional sign,
//! fraction and exponent.  Parsing succeeds only when nothing but
//! whitespace follows the top-level value; the first error aborts the
//! whole parse.

use vstd::prelude::*;

use crate::casting::CastError;
use crate::number::EXP_LIMIT;
use crate::number::NumModel;
use crate::number::digit_chars;
use crate::number::int_digits;
use crate::number::norm_num;
use crate::value::Json;

verus! {

/// The construct the parser was looking for where it stopped.
#[derive(Clone, Copy, Debug, PartialEq, Eq, Structural)]
pub enum Expected {
    /// A value: string, number, literal, array or object.
    Value,
    /// The digits of a number.
    Digits,
    /// The colon between a key and its value.
    Colon,
    /// The quote that ends a string.
    CloseQuote,
    /// A valid escape sequence after a backslash.
    Escape,
    /// Four non-surrogate hexadecimal digits after `\u`.
    HexEscape,
    /// The quoted key of an object entry.
    Key,
    /// The bracket that ends an array.
    CloseBracket,
    /// The brace that ends an object.
    CloseBrace,
}

pub open spec fn is_ws(c: char) -> bool {
    c == ' ' || c == '\t' || c == '\n' || c == '\r'
}

/// The first position at or after `i` that does not hold whitespace.
pub open spec fn skip_ws(s: Seq<char>, i: int) -> int
    decreases s.len() - i,
{
    if 0 <= i < s.len() && is_ws(s[i]) {
        skip_ws(s, i + 1)
    } else {
        i
    }
}

pub proof fn lemma_skip_ws(s: Seq<char>, i: int)
    requires
        0 <= i <= s.len(),
    ensures
        i <= skip_ws(s, i) <= s.len(),
        skip_ws(s, i) < s.len() ==> !is_ws(s[skip_ws(s, i)]),
        forall|k: int| i <= k < skip_ws(s, i) ==> is_ws(#[trigger] s[k]),
    decreases s.len() - i,
{
    if i < s.len() && is_ws(s[i]) {
        lemma_skip_ws(s, i + 1);
    }
}

pub open spec fn is_digit_c(c: char) -> bool {
    0x30 <= (c as u32) && (c as u32) <= 0x39
}

/// The digit value of a decimal digit character.
pub open spec fn char_digit(c: char) -> u8 {
    (((c as u32) - 0x30) as u32) as u8
}

/// The first position at or after `i` that does not hold a decimal digit.
pub open spec fn scan_digits(s: Seq<char>, i: int) -> int
    decreases s.len() - i,
{
    if 0 <= i < s.len() && is_digit_c(s[i]) {
        scan_digits(s, i + 1)
    } else {
        i
    }
}

pub proof fn lemma_scan_digits(s: Seq<char>, i: int)
    requires
        0 <= i <= s.len(),
    ensures
        i <= scan_digits(s, i) <= s.len(),
        scan_digits(s, i) < s.len() ==> !is_digit_c(s[scan_digits(s, i)]),
        forall|k: int| i <= k < scan_digits(s, i) ==> is_digit_c(#[trigger] s[k]),
    decreases s.len() - i,
{
    if i < s.len() && is_digit_c(s[i]) {
        lemma_scan_digits(s, i + 1);
    }
}

/// The digit values of `s[a..b]`.
pub open spec fn digits_range(s: Seq<char>, a: int, b: int) -> Seq<u8> {
    Seq::new(
        if b >= a {
            (b - a) as nat
        } else {
            0
        },
        |k: int| char_digit(s[a + k]),
    )
}

/// The value of a hexadecimal digit character, or -1.
pub open spec fn hexv(c: char) -> int {
    let u = c as u32;
    if 0x30 <= u && u <= 0x39 {
        u - 0x30
    } else if 0x61 <= u && u <= 0x66 {
        u - 0x57
    } else if 0x41 <= u && u <= 0x46 {
        u - 0x37
    } else {
        -1
    }
}

/// The character a simple escape stands for.
pub open spec fn unescape_char(e: char) -> char {
    if e == 'b' {
        '\u{8}'
    } else if e == 'f' {
        '\u{c}'
    } else if e == 'n' {
        '\n'
    } else if e == 'r' {
        '\r'
    } else if e == 't' {
        '\t'
    } else {
        e
    }
}

/// Parses the inside of a string literal starting at `i` (just after the
/// opening quote): the decoded characters and the position after the
/// closing quote, or the position of the offending input.
pub open spec fn sp_string(s: Seq<char>, i: int) -> Result<(Seq<char>, int), (Expected, int)>
    decreases s.len() - i,
{
    if !(0 <= i < s.len()) {
        Err(
            (
                Expected::CloseQuote,
                if i < 0 {
                    0
                } else {
                    s.len() as int
                },
            ),
        )
    } else if s[i] == '"' {
        Ok((Seq::empty(), i + 1))
    } else if s[i] == '\\' {
        if i + 1 >= s.len() {
            Err((Expected::Escape, s.len() as int))
        } else {
            let e = s[i + 1];
            if e == '"' || e == '\\' || e == '/' || e == 'b' || e == 'f' || e == 'n' || e == 'r'
                || e == 't' {
                match sp_string(s, i + 2) {
                    Ok((rest, j)) => Ok((seq![unescape_char(e)] + rest, j)),
                    Err(p) => Err(p),
                }
            } else if e == 'u' {
                if i + 6 <= s.len() && hexv(s[i + 2]) >= 0 && hexv(s[i + 3]) >= 0 && hexv(
                    s[i + 4],
                ) >= 0 && hexv(s[i + 5]) >= 0 {
                    let code = hexv(s[i + 2]) * 4096 + hexv(s[i + 3]) * 256 + hexv(s[i + 4]) * 16
                        + hexv(s[i + 5]);
                    if 0xD800 <= code && code < 0xE000 {
                        Err((Expected::HexEscape, i + 2))
                    } else {
                        match sp_string(s, i + 6) {
                            Ok((rest, j)) => Ok((seq![((code as u32) as char)] + rest, j)),
                            Err(p) => Err(p),
                        }
                    }
                } else {
                    Err((Expected::HexEscape, i + 2))
                }
            } else {
                Err((Expected::Escape, i + 1))
            }
        }
    } else {
        match sp_string(s, i + 1) {
            Ok((rest, j)) => Ok((seq![s[i]] + rest, j)),
            Err(p) => Err(p),
        }
    }
}

pub proof fn lemma_sp_string_bounds(s: Seq<char>, i: int)
    requires
        0 <= i <= s.len(),
    ensures
        match sp_string(s, i) {
            Ok((cs, j)) => i < j <= s.len(),
            Err(te) => 0 <= te.1 <= s.len(),
        },
    decreases s.len() - i,
{
    if 0 <= i < s.len() {
        if s[i] == '"' {
        } else if s[i] == '\\' {
            if i + 1 < s.len() {
                let e = s[i + 1];
                if e == '"' || e == '\\' || e == '/' || e == 'b' || e == 'f' || e == 'n' || e == 'r'
                    || e == 't' {
                    lemma_sp_string_bounds(s, i + 2);
                } else if e == 'u' {
                    if i + 6 <= s.len() && hexv(s[i + 2]) >= 0 && hexv(s[i + 3]) >= 0 && hexv(
                        s[i + 4],
                    ) >= 0 && hexv(s[i + 5]) >= 0 {
                        lemma_sp_string_bounds(s, i + 6);
                    }
                }
            }
        } else {
            lemma_sp_string_bounds(s, i + 1);
        }
    }
}

/// The exponent literal's value, saturated at `EXP_LIMIT` digit by digit.
pub open spec fn exp_sat_val(ds: Seq<u8>) -> int
    decreases ds.len(),
{
    if ds.len() == 0 {
        0
    } else {
        let p = exp_sat_val(ds.drop_last());
        let v = p * 10 + ds.last();
        if v > EXP_LIMIT as int {
            EXP_LIMIT as int
        } else {
            v
        }
    }
}


/// Whether a number at `i` starts with a minus sign.
pub open spec fn num_neg(s: Seq<char>, i: int) -> bool {
    0 <= i < s.len() && s[i] == '-'
}

/// The position after an optional leading sign.
pub open spec fn num_start(s: Seq<char>, i: int) -> int {
    if 0 <= i < s.len() && (s[i] == '-' || s[i] == '+') {
        i + 1
    } else {
        i
    }
}

/// The position after the optional fraction part that follows the integer
/// digits ending at `e1`.
pub open spec fn frac_end(s: Seq<char>, e1: int) -> int {
    if 0 <= e1 < s.len() && s[e1] == '.' {
        scan_digits(s, e1 + 1)
    } else {
        e1
    }
}

/// The position after the optional exponent part starting at `p1`; an `e`
/// without digits is not consumed.
pub open spec fn exp_end(s: Seq<char>, p1: int) -> int {
    if 0 <= p1 < s.len() && (s[p1] == 'e' || s[p1] == 'E') {
        let q = if p1 + 1 < s.len() && (s[p1 + 1] == '-' || s[p1 + 1] == '+') {
            p1 + 2
        } else {
            p1 + 1
        };
        if scan_digits(s, q) > q {
            scan_digits(s, q)
        } else {
            p1
        }
    } else {
        p1
    }
}

/// The signed, saturated value of the exponent part in `s[p1..pend]`.
pub open spec fn exp_lit_val(s: Seq<char>, p1: int) -> int {
    let q = if p1 + 1 < s.len() && (s[p1 + 1] == '-' || s[p1 + 1] == '+') {
        p1 + 2
    } else {
        p1 + 1
    };
    let m = exp_sat_val(digits_range(s, q, scan_digits(s, q)));
    if p1 + 1 < s.len() && s[p1 + 1] == '-' {
        -m
    } else {
        m
    }
}

/// Parses a decimal number literal at `i`: sign, digits, optional
/// fraction, optional exponent, normalized into canonical form.
pub open spec fn sp_number(s: Seq<char>, i: int) -> Result<(NumModel, int), (Expected, int)> {
    let i0 = num_start(s, i);
    let e1 = scan_digits(s, i0);
    if e1 == i0 {
        Err((Expected::Digits, i0))
    } else {
        let p1 = frac_end(s, e1);
        let fracd = if p1 == e1 {
            Seq::<u8>::empty()
        } else {
            digits_range(s, e1 + 1, p1)
        };
        let fraclen = if p1 == e1 {
            0
        } else {
            p1 - (e1 + 1)
        };
        let pend = exp_end(s, p1);
        let litexp = if pend == p1 {
            0
        } else {
            exp_lit_val(s, p1)
        };
        Ok((norm_num(num_neg(s, i), digits_range(s, i0, e1) + fracd, litexp - fraclen), pend))
    }
}


/// Parses a value at `i`: leading whitespace, then the first alternative
/// among string, number, `true`, `false`, `null`, array, object that the
/// next character selects, then trailing whitespace.
pub open spec fn sp_value(s: Seq<char>, i: int, fuel: nat) -> Result<(Json, int), (Expected, int)>
    decreases fuel,
{
    if fuel == 0 {
        Err((Expected::Value, i))
    } else {
        let i1 = skip_ws(s, i);
        if i1 >= s.len() {
            Err((Expected::Value, s.len() as int))
        } else {
            let c = s[i1];
            if c == '"' {
                match sp_string(s, i1 + 1) {
                    Ok((cs, j)) => Ok((Json::Str(cs), skip_ws(s, j))),
                    Err(p) => Err(p),
                }
            } else if c == '-' || c == '+' || is_digit_c(c) {
                match sp_number(s, i1) {
                    Ok((n, j)) => Ok((Json::Num(n), skip_ws(s, j))),
                    Err(p) => Err(p),
                }
            } else if c == 't' {
                if i1 + 4 <= s.len() && s[i1 + 1] == 'r' && s[i1 + 2] == 'u' && s[i1 + 3] == 'e' {
                    Ok((Json::Bool(true), skip_ws(s, i1 + 4)))
                } else {
                    Err((Expected::Value, i1))
                }
            } else if c == 'f' {
                if i1 + 5 <= s.len() && s[i1 + 1] == 'a' && s[i1 + 2] == 'l' && s[i1 + 3] == 's'
                    && s[i1 + 4] == 'e' {
                    Ok((Json::Bool(false), skip_ws(s, i1 + 5)))
                } else {
                    Err((Expected::Value, i1))
                }
            } else if c == 'n' {
                if i1 + 4 <= s.len() && s[i1 + 1] == 'u' && s[i1 + 2] == 'l' && s[i1 + 3] == 'l' {
                    Ok((Json::Null, skip_ws(s, i1 + 4)))
                } else {
                    Err((Expected::Value, i1))
                }
            } else if c == '[' {
                match sp_array(s, i1 + 1, (fuel - 1) as nat) {
                    Ok((j, p)) => Ok((j, skip_ws(s, p))),
                    Err(p) => Err(p),
                }
            } else if c == '{' {
                match sp_object(s, i1 + 1, (fuel - 1) as nat) {
                    Ok((j, p)) => Ok((j, skip_ws(s, p))),
                    Err(p) => Err(p),
                }
            } else {
                Err((Expected::Value, i1))
            }
        }
    }
}

/// Parses the inside of an array starting just after `[`: the element
/// list and the position just after `]`.
pub open spec fn sp_array(s: Seq<char>, i: int, fuel: nat) -> Result<(Json, int), (Expected, int)>
    decreases fuel,
{
    if fuel == 0 {
        Err((Expected::Value, i))
    } else {
        match sp_value(s, i, (fuel - 1) as nat) {
            Err(_) => {
                let j = skip_ws(s, i);
                if j < s.len() && s[j] == ']' {
                    Ok((Json::Arr(Seq::empty()), j + 1))
                } else {
                    Err((Expected::CloseBracket, j))
                }
            },
            Ok((v, j)) => sp_more_elems(s, j, seq![v], (fuel - 1) as nat),
        }
    }
}

/// After one element: more comma-separated elements, then `]`.  A comma
/// not followed by an element is left unconsumed.
pub open spec fn sp_more_elems(s: Seq<char>, i: int, acc: Seq<Json>, fuel: nat) -> Result<
    (Json, int),
    (Expected, int),
>
    decreases fuel,
{
    if fuel == 0 {
        Err((Expected::Value, i))
    } else if i < s.len() && s[i] == ',' {
        match sp_value(s, i + 1, (fuel - 1) as nat) {
            Ok((v, j)) => sp_more_elems(s, j, acc.push(v), (fuel - 1) as nat),
            Err(_) => sp_close_arr(s, i, acc),
        }
    } else {
        sp_close_arr(s, i, acc)
    }
}

pub open spec fn sp_close_arr(s: Seq<char>, i: int, acc: Seq<Json>) -> Result<
    (Json, int),
    (Expected, int),
> {
    if i < s.len() && s[i] == ']' {
        Ok((Json::Arr(acc), i + 1))
    } else {
        Err(
            (
                Expected::CloseBracket,
                if i <= s.len() {
                    i
                } else {
                    s.len() as int
                },
            ),
        )
    }
}

/// Parses one `"key": value` pair starting at `i` (at the opening quote).
pub open spec fn sp_pair(s: Seq<char>, i: int, fuel: nat) -> Result<
    ((Seq<char>, Json), int),
    (Expected, int),
>
    decreases fuel,
{
    if fuel == 0 {
        Err((Expected::Key, i))
    } else if 0 <= i < s.len() && s[i] == '"' {
        match sp_string(s, i + 1) {
            Ok((k, j)) => {
                let j2 = skip_ws(s, j);
                if j2 < s.len() && s[j2] == ':' {
                    match sp_value(s, j2 + 1, (fuel - 1) as nat) {
                        Ok((v, j3)) => Ok(((k, v), j3)),
                        Err(p) => Err(p),
                    }
                } else {
                    Err(
                        (
                            Expected::Colon,
                            if j2 <= s.len() {
                                j2
                            } else {
                                s.len() as int
                            },
                        ),
                    )
                }
            },
            Err(p) => Err(p),
        }
    } else {
        Err(
            (
                Expected::Key,
                if 0 <= i <= s.len() {
                    i
                } else {
                    s.len() as int
                },
            ),
        )
    }
}

/// Parses the inside of an object starting just after `{`: the entries,
/// later values replacing earlier equal keys in place, and the position
/// just after `}`.
pub open spec fn sp_object(s: Seq<char>, i: int, fuel: nat) -> Result<
    (Json, int),
    (Expected, int),
>
    decreases fuel,
{
    if fuel == 0 {
        Err((Expected::Key, i))
    } else {
        let j = skip_ws(s, i);
        match sp_pair(s, j, (fuel - 1) as nat) {
            Err(_) => {
                if j < s.len() && s[j] == '}' {
                    Ok((Json::Obj(Seq::empty()), j + 1))
                } else {
                    Err((Expected::CloseBrace, j))
                }
            },
            Ok(((k, v), j2)) => sp_more_pairs(
                s,
                j2,
                crate::object::obj_set(Seq::empty(), k, v),
                (fuel - 1) as nat,
            ),
        }
    }
}

/// After one pair: more comma-separated pairs, then `}`.  A comma not
/// followed by a pair is left unconsumed.
pub open spec fn sp_more_pairs(
    s: Seq<char>,
    i: int,
    acc: Seq<(Seq<char>, Json)>,
    fuel: nat,
) -> Result<(Json, int), (Expected, int)>
    decreases fuel,
{
    if fuel == 0 {
        Err((Expected::Key, i))
    } else if i < s.len() && s[i] == ',' {
        let j = skip_ws(s, i + 1);
        match sp_pair(s, j, (fuel - 1) as nat) {
            Ok(((k, v), j2)) => sp_more_pairs(
                s,
                j2,
                crate::object::obj_set(acc, k, v),
                (fuel - 1) as nat,
            ),
            Err(_) => sp_close_obj(s, i, acc),
        }
    } else {
        sp_close_obj(s, i, acc)
    }
}

pub open spec fn sp_close_obj(s: Seq<char>, i: int, acc: Seq<(Seq<char>, Json)>) -> Result<
    (Json, int),
    (Expected, int),
> {
    if i < s.len() && s[i] == '}' {
        Ok((Json::Obj(acc), i + 1))
    } else {
        Err(
            (
                Expected::CloseBrace,
                if i <= s.len() {
                    i
                } else {
                    s.len() as int
                },
            ),
        )
    }
}

/// The fuel that always suffices to parse from position `i`.
pub open spec fn fuel_at(s: Seq<char>, i: int) -> nat {
    (2 * (s.len() - i) + 2) as nat
}

/// The whole-text parse: a value at position zero with sufficient fuel.
pub open spec fn sp_doc(s: Seq<char>) -> Result<(Json, int), (Expected, int)> {
    sp_value(s, 0, fuel_at(s, 0))
}

} // verus!

// Executable side.
use crate::number::JsonNumber;
use crate::text::char_from_u32;
use crate::text::push_char;

verus! {

broadcast use

    vstd::std_specs::vec::group_vec_axioms,
    crate::value::lemma_elems_model,
    crate::value::lemma_entries_model,
;

/// Skips whitespace from `i`.
fn p_skip_ws(s: &Vec<char>, i: usize) -> (r: usize)
    requires
        i <= s@.len(),
    ensures
        r as int == skip_ws(s@, i as int),
        i <= r <= s@.len(),
    decreases s@.len() - i,
{
    let mut cur = i;
    while cur < s.len() && (s[cur] == ' ' || s[cur] == '\t' || s[cur] == '\n' || s[cur] == '\r')
        invariant
            i <= cur <= s@.len(),
            skip_ws(s@, i as int) == skip_ws(s@, cur as int),
        decreases s@.len() - cur,
    {
        cur = cur + 1;
    }
    cur
}

/// Skips decimal digits from `i`.
fn p_scan_digits(s: &Vec<char>, i: usize) -> (r: usize)
    requires
        i <= s@.len(),
    ensures
        r as int == scan_digits(s@, i as int),
        i <= r <= s@.len(),
{
    let mut cur = i;
    while cur < s.len() && (s[cur] as u32) >= 0x30 && (s[cur] as u32) <= 0x39
        invariant
            i <= cur <= s@.len(),
            scan_digits(s@, i as int) == scan_digits(s@, cur as int),
        decreases s@.len() - cur,
    {
        cur = cur + 1;
    }
    cur
}

/// The digit values of `s[a..b]`, which must all be decimal digits.
fn p_digits_vec(s: &Vec<char>, a: usize, b: usize) -> (r: Vec<u8>)
    requires
        a <= b <= s@.len(),
        forall|k: int| a <= k < b ==> is_digit_c(#[trigger] s@[k]),
    ensures
        r@ == digits_range(s@, a as int, b as int),
        forall|k: int| 0 <= k < r@.len() ==> r@[k] < 10,
{
    let mut r: Vec<u8> = Vec::new();
    let mut cur = a;
    while cur < b
        invariant
            a <= cur <= b <= s@.len(),
            forall|k: int| a <= k < b ==> is_digit_c(#[trigger] s@[k]),
            r@.len() == cur - a,
            forall|k: int| 0 <= k < r@.len() ==> r@[k] == char_digit(s@[a + k]),
            forall|k: int| 0 <= k < r@.len() ==> r@[k] < 10,
        decreases b - cur,
    {
        let c = s[cur];
        r.push(((c as u32) - 0x30) as u8);
        cur = cur + 1;
    }
    proof {
        assert(r@ =~= digits_range(s@, a as int, b as int));
    }
    r
}

/// The saturated value of the exponent digits `s[q..e2]`.
fn p_exp_val(s: &Vec<char>, q: usize, e2: usize) -> (r: i64)
    requires
        q <= e2 <= s@.len(),
        forall|k: int| q <= k < e2 ==> is_digit_c(#[trigger] s@[k]),
    ensures
        r as int == exp_sat_val(digits_range(s@, q as int, e2 as int)),
        0 <= r <= EXP_LIMIT,
{
    let mut acc: i64 = 0;
    let mut cur = q;
    proof {
        assert(digits_range(s@, q as int, q as int) =~= Seq::<u8>::empty());
    }
    while cur < e2
        invariant
            q <= cur <= e2 <= s@.len(),
            forall|k: int| q <= k < e2 ==> is_digit_c(#[trigger] s@[k]),
            acc as int == exp_sat_val(digits_range(s@, q as int, cur as int)),
            0 <= acc <= EXP_LIMIT,
        decreases e2 - cur,
    {
        let c = s[cur];
        let d = ((c as u32) - 0x30) as u8;
        let v = acc * 10 + (d as i64);
        if v > EXP_LIMIT {
            acc = EXP_LIMIT;
        } else {
            acc = v;
        }
        proof {
            let pre = digits_range(s@, q as int, cur as int);
            let post = digits_range(s@, q as int, cur + 1);
            assert(post.drop_last() =~= pre);
            assert(post.last() == char_digit(s@[cur as int]));
        }
        cur = cur + 1;
    }
    acc
}

/// Parses the inside of a string literal, decoding escapes, from just
/// after the opening quote.
fn p_string(s: &Vec<char>, i: usize) -> (r: Result<(String, usize), (Expected, usize)>)
    requires
        i <= s@.len(),
    ensures
        match r {
            Ok((cs, j)) => i < j <= s@.len() && sp_string(s@, i as int) == Ok::<
                _,
                (Expected, int),
            >((cs@, j as int)),
            Err(te) => te.1 <= s@.len() && sp_string(s@, i as int) == Err::<
                (Seq<char>, int),
                _,
            >((te.0, te.1 as int)),
        },
{
    let n = s.len();
    let mut acc = String::new();
    let mut cur = i;
    proof {
        lemma_sp_string_bounds(s@, i as int);
        assert(acc@ =~= Seq::<char>::empty());
        assert forall|rest: Seq<char>, j: int|
            sp_string(s@, i as int) == Ok::<_, (Expected, int)>((rest, j)) implies sp_string(
            s@,
            i as int,
        ) == Ok::<_, (Expected, int)>((acc@ + rest, j)) by {
            assert(acc@ + rest =~= rest);
        }
    }
    while cur < n
        invariant
            i <= cur <= n,
            n == s@.len(),
            forall|rest: Seq<char>, j: int|
                sp_string(s@, cur as int) == Ok::<_, (Expected, int)>((rest, j)) ==> sp_string(
                    s@,
                    i as int,
                ) == Ok::<_, (Expected, int)>((acc@ + rest, j)),
            forall|te: (Expected, int)|
                sp_string(s@, cur as int) == Err::<(Seq<char>, int), (Expected, int)>(te)
                    ==> sp_string(s@, i as int) == Err::<(Seq<char>, int), (Expected, int)>(te),
            forall|rest: Seq<char>, j: int|
                sp_string(s@, cur as int) == Ok::<_, (Expected, int)>((rest, j)) ==> cur < j
                    <= n,
        decreases n - cur,
    {
        let c = s[cur];
        if c == '"' {
            proof {
                assert(sp_string(s@, cur as int) == Ok::<_, (Expected, int)>(
                    (Seq::<char>::empty(), cur + 1),
                ));
                assert(acc@ + Seq::<char>::empty() =~= acc@);
            }
            return Ok((acc, cur + 1));
        } else if c == '\\' {
            if cur + 1 >= n {
                proof {
                    assert(sp_string(s@, cur as int) == Err::<(Seq<char>, int), (Expected, int)>(
                        (Expected::Escape, s@.len() as int),
                    ));
                }
                return Err((Expected::Escape, n));
            }
            let e = s[cur + 1];
            if e == '"' || e == '\\' || e == '/' || e == 'b' || e == 'f' || e == 'n' || e == 'r'
                || e == 't' {
                let decoded: char = if e == 'b' {
                    '\u{8}'
                } else if e == 'f' {
                    '\u{c}'
                } else if e == 'n' {
                    '\n'
                } else if e == 'r' {
                    '\r'
                } else if e == 't' {
                    '\t'
                } else {
                    e
                };
                let ghost accpre = acc@;
                push_char(&mut acc, decoded);
                proof {
                    assert(decoded == unescape_char(s@[cur + 1]));
                    lemma_sp_string_bounds(s@, cur + 2);
                    assert forall|rest: Seq<char>, j: int|
                        sp_string(s@, cur + 2) == Ok::<_, (Expected, int)>((rest, j)) implies
                        sp_string(s@, i as int) == Ok::<_, (Expected, int)>((acc@ + rest, j))
                            && cur + 2 < j <= n by {
                        assert(sp_string(s@, cur as int) == Ok::<_, (Expected, int)>(
                            (seq![decoded] + rest, j),
                        ));
                        assert(accpre + (seq![decoded] + rest) =~= acc@ + rest);
                    }
                }
                cur = cur + 2;
            } else if e == 'u' {
                if n - (cur + 1) >= 5 {
                    let h1 = p_hexv(s[cur + 2]);
                    let h2 = p_hexv(s[cur + 3]);
                    let h3 = p_hexv(s[cur + 4]);
                    let h4 = p_hexv(s[cur + 5]);
                    if h1 >= 0 && h2 >= 0 && h3 >= 0 && h4 >= 0 {
                        let code: i32 = h1 * 4096 + h2 * 256 + h3 * 16 + h4;
                        if 0xD800 <= code && code < 0xE000 {
                            proof {
                                assert(sp_string(s@, cur as int) == Err::<
                                    (Seq<char>, int),
                                    (Expected, int),
                                >((Expected::HexEscape, cur + 2)));
                            }
                            return Err((Expected::HexEscape, cur + 2));
                        }
                        let decoded = char_from_u32(code as u32);
                        let ghost accpre = acc@;
                        push_char(&mut acc, decoded);
                        proof {
                            lemma_sp_string_bounds(s@, cur + 6);
                            assert forall|rest: Seq<char>, j: int|
                                sp_string(s@, cur + 6) == Ok::<_, (Expected, int)>((rest, j))
                                    implies sp_string(s@, i as int) == Ok::<_, (Expected, int)>(
                                (acc@ + rest, j),
                            ) && cur + 6 < j <= n by {
                                assert(sp_string(s@, cur as int) == Ok::<_, (Expected, int)>(
                                    (seq![decoded] + rest, j),
                                ));
                                assert(accpre + (seq![decoded] + rest) =~= acc@ + rest);
                            }
                        }
                        cur = cur + 6;
                    } else {
                        proof {
                            assert(sp_string(s@, cur as int) == Err::<
                                (Seq<char>, int),
                                (Expected, int),
                            >((Expected::HexEscape, cur + 2)));
                        }
                        return Err((Expected::HexEscape, cur + 2));
                    }
                } else {
                    proof {
                        assert(sp_string(s@, cur as int) == Err::<
                            (Seq<char>, int),
                            (Expected, int),
                        >((Expected::HexEscape, cur + 2)));
                    }
                    return Err((Expected::HexEscape, cur + 2));
                }
            } else {
                proof {
                    assert(sp_string(s@, cur as int) == Err::<(Seq<char>, int), (Expected, int)>(
                        (Expected::Escape, cur + 1),
                    ));
                }
                return Err((Expected::Escape, cur + 1));
            }
        } else {
            let ghost accpre = acc@;
            push_char(&mut acc, c);
            proof {
                lemma_sp_string_bounds(s@, cur + 1);
                assert forall|rest: Seq<char>, j: int|
                    sp_string(s@, cur + 1) == Ok::<_, (Expected, int)>((rest, j)) implies
                    sp_string(s@, i as int) == Ok::<_, (Expected, int)>((acc@ + rest, j)) && cur
                    + 1 < j <= n by {
                    assert(sp_string(s@, cur as int) == Ok::<_, (Expected, int)>(
                        (seq![c] + rest, j),
                    ));
                    assert(accpre + (seq![c] + rest) =~= acc@ + rest);
                }
            }
            cur = cur + 1;
        }
    }
    proof {
        assert(sp_string(s@, cur as int) == Err::<(Seq<char>, int), (Expected, int)>(
            (Expected::CloseQuote, s@.len() as int),
        ));
    }
    Err((Expected::CloseQuote, n))
}

/// The hexadecimal value of `c`, or -1.
fn p_hexv(c: char) -> (r: i32)
    ensures
        r as int == hexv(c),
{
    let u = c as u32;
    if 0x30 <= u && u <= 0x39 {
        (u - 0x30) as i32
    } else if 0x61 <= u && u <= 0x66 {
        (u - 0x57) as i32
    } else if 0x41 <= u && u <= 0x46 {
        (u - 0x37) as i32
    } else {
        -1
    }
}

/// Parses a decimal number literal at `i`.
#[verifier::rlimit(100)]
fn p_number(s: &Vec<char>, i: usize) -> (r: Result<(JsonNumber, usize), (Expected, usize)>)
    requires
        i <= s@.len(),
    ensures
        match r {
            Ok((nb, j)) => i < j <= s@.len() && nb.wf() && sp_number(s@, i as int) == Ok::<
                _,
                (Expected, int),
            >((nb@, j as int)),
            Err(te) => te.1 <= s@.len() && sp_number(s@, i as int) == Err::<(NumModel, int), _>(
                (te.0, te.1 as int),
            ),
        },
{
    let n = s.len();
    let neg = i < n && s[i] == '-';
    let i0 = if i < n && (s[i] == '-' || s[i] == '+') {
        i + 1
    } else {
        i
    };
    let e1 = p_scan_digits(s, i0);
    proof {
        lemma_scan_digits(s@, i0 as int);
    }
    if e1 == i0 {
        return Err((Expected::Digits, i0));
    }
    let intd = p_digits_vec(s, i0, e1);
    let mut allds = intd;
    let mut fraclen: usize = 0;
    let mut p1 = e1;
    if e1 < n && s[e1] == '.' {
        let fe = p_scan_digits(s, e1 + 1);
        proof {
            lemma_scan_digits(s@, e1 + 1);
        }
        let fracd = p_digits_vec(s, e1 + 1, fe);
        let mut k: usize = 0;
        let flen = fracd.len();
        while k < flen
            invariant
                0 <= k <= flen,
                flen == fracd@.len(),
                allds@ =~= digits_range(s@, i0 as int, e1 as int) + fracd@.take(k as int),
                forall|q: int| 0 <= q < fracd@.len() ==> fracd@[q] < 10,
                forall|q: int| 0 <= q < allds@.len() ==> allds@[q] < 10,
            decreases flen - k,
        {
            allds.push(fracd[k]);
            proof {
                assert(allds@ =~= digits_range(s@, i0 as int, e1 as int) + fracd@.take(k + 1));
            }
            k = k + 1;
        }
        proof {
            assert(fracd@.take(flen as int) =~= fracd@);
        }
        fraclen = fe - (e1 + 1);
        p1 = fe;
    } else {
        proof {
            assert(allds@ =~= digits_range(s@, i0 as int, e1 as int) + Seq::<u8>::empty());
        }
    }
    let mut pend = p1;
    let mut litexp: i64 = 0;
    if p1 < n && (s[p1] == 'e' || s[p1] == 'E') {
        let q = if p1 + 1 < n && (s[p1 + 1] == '-' || s[p1 + 1] == '+') {
            p1 + 2
        } else {
            p1 + 1
        };
        let e2 = p_scan_digits(s, q);
        proof {
            lemma_scan_digits(s@, q as int);
        }
        if e2 > q {
            let m = p_exp_val(s, q, e2);
            litexp = if p1 + 1 < n && s[p1 + 1] == '-' {
                -m
            } else {
                m
            };
            pend = e2;
        }
    }
    let nb = JsonNumber::normalize(neg, allds, (litexp as i128) - (fraclen as i128));
    proof {
        assert(num_start(s@, i as int) == i0 as int);
        assert(num_neg(s@, i as int) == neg);
        assert(frac_end(s@, e1 as int) == p1 as int);
        assert(exp_end(s@, p1 as int) == pend as int);
        if pend != p1 {
            assert(litexp as int == exp_lit_val(s@, p1 as int));
        }
    }
    Ok((nb, pend))
}

} // verus!

// The parser entry point and its error type.
use crate::text::str_to_chars;
use crate::value::JsonArray;
use crate::value::JsonObject;
use crate::value::JsonValue;
use crate::value::wf_json;
use vstd::string::StringExecFns;

verus! {

/// Parses one value at `i` and returns it with the position after its
/// trailing whitespace, or the position of the offending input.
fn p_value(s: &Vec<char>, i: usize, Ghost(f): Ghost<nat>) -> (r: Result<
    (JsonValue, usize),
    (Expected, usize),
>)
    requires
        i <= s@.len(),
        f >= 2 * (s@.len() - i) + 2,
    ensures
        match r {
            Ok((v, j)) => i < j <= s@.len() && v.wf() && sp_value(s@, i as int, f) == Ok::<
                _,
                (Expected, int),
            >((v@, j as int)),
            Err(te) => te.1 <= s@.len() && sp_value(s@, i as int, f) == Err::<(Json, int), _>(
                (te.0, te.1 as int),
            ),
        },
    decreases s@.len() - i, 0int,
{
    let n = s.len();
    let i1 = p_skip_ws(s, i);
    proof {
        lemma_skip_ws(s@, i as int);
        assert(f > 0);
    }
    if i1 >= n {
        return Err((Expected::Value, n));
    }
    let c = s[i1];
    if c == '"' {
        match p_string(s, i1 + 1) {
            Ok((cs, j)) => {
                let j2 = p_skip_ws(s, j);
                proof {
                    lemma_skip_ws(s@, j as int);
                }
                Ok((JsonValue::String(cs), j2))
            },
            Err(p) => Err(p),
        }
    } else if c == '-' || c == '+' || ((c as u32) >= 0x30 && (c as u32) <= 0x39) {
        match p_number(s, i1) {
            Ok((nb, j)) => {
                let j2 = p_skip_ws(s, j);
                proof {
                    lemma_skip_ws(s@, j as int);
                }
                Ok((JsonValue::Number(nb), j2))
            },
            Err(p) => Err(p),
        }
    } else if c == 't' {
        if n - i1 >= 4 && s[i1 + 1] == 'r' && s[i1 + 2] == 'u' && s[i1 + 3] == 'e' {
            let j2 = p_skip_ws(s, i1 + 4);
            proof {
                lemma_skip_ws(s@, i1 + 4);
            }
            Ok((JsonValue::Boolean(true), j2))
        } else {
            Err((Expected::Value, i1))
        }
    } else if c == 'f' {
        if n - i1 >= 5 && s[i1 + 1] == 'a' && s[i1 + 2] == 'l' && s[i1 + 3] == 's' && s[i1 + 4]
            == 'e' {
            let j2 = p_skip_ws(s, i1 + 5);
            proof {
                lemma_skip_ws(s@, i1 + 5);
            }
            Ok((JsonValue::Boolean(false), j2))
        } else {
            Err((Expected::Value, i1))
        }
    } else if c == 'n' {
        if n - i1 >= 4 && s[i1 + 1] == 'u' && s[i1 + 2] == 'l' && s[i1 + 3] == 'l' {
            let j2 = p_skip_ws(s, i1 + 4);
            proof {
                lemma_skip_ws(s@, i1 + 4);
            }
            Ok((JsonValue::Null, j2))
        } else {
            Err((Expected::Value, i1))
        }
    } else if c == '[' {
        match p_array(s, i1 + 1, Ghost((f - 1) as nat)) {
            Ok((v, p)) => {
                let j2 = p_skip_ws(s, p);
                proof {
                    lemma_skip_ws(s@, p as int);
                }
                Ok((v, j2))
            },
            Err(p) => Err(p),
        }
    } else if c == '{' {
        match p_object(s, i1 + 1, Ghost((f - 1) as nat)) {
            Ok((v, p)) => {
                let j2 = p_skip_ws(s, p);
                proof {
                    lemma_skip_ws(s@, p as int);
                }
                Ok((v, j2))
            },
            Err(p) => Err(p),
        }
    } else {
        Err((Expected::Value, i1))
    }
}

/// Parses the element list and closing bracket of an array, from just
/// after the opening bracket.
fn p_array(s: &Vec<char>, i: usize, Ghost(g): Ghost<nat>) -> (r: Result<
    (JsonValue, usize),
    (Expected, usize),
>)
    requires
        i <= s@.len(),
        g >= 2 * (s@.len() - i) + 3,
    ensures
        match r {
            Ok((v, p)) => i < p <= s@.len() && v.wf() && sp_array(s@, i as int, g) == Ok::<
                _,
                (Expected, int),
            >((v@, p as int)),
            Err(te) => te.1 <= s@.len() && sp_array(s@, i as int, g) == Err::<(Json, int), _>(
                (te.0, te.1 as int),
            ),
        },
    decreases s@.len() - i, 1int,
{
    let n = s.len();
    proof {
        assert(g > 0);
    }
    match p_value(s, i, Ghost((g - 1) as nat)) {
        Err(_) => {
            let j = p_skip_ws(s, i);
            proof {
                lemma_skip_ws(s@, i as int);
            }
            if j < n && s[j] == ']' {
                Ok((JsonValue::Array(JsonArray::new()), j + 1))
            } else {
                Err((Expected::CloseBracket, j))
            }
        },
        Ok((v0, j0)) => {
            let mut arr = JsonArray::new();
            arr.push(v0);
            let mut cur = j0;
            let ghost mut curf: nat = (g - 1) as nat;
            proof {
                assert(arr@ =~= seq![v0@]);
            }
            loop
                invariant
                    i < cur <= n,
                    n == s@.len(),
                    curf >= 2 * (n - cur) + 1,
                    arr.wf(),
                    sp_more_elems(s@, cur as int, arr@, curf) == sp_array(s@, i as int, g),
                decreases n - cur,
            {
                proof {
                    assert(curf > 0);
                }
                if cur < n && s[cur] == ',' {
                    match p_value(s, cur + 1, Ghost((curf - 1) as nat)) {
                        Ok((v, j)) => {
                            proof {
                                assert(sp_more_elems(s@, cur as int, arr@, curf)
                                    == sp_more_elems(s@, j as int, arr@.push(v@), (curf - 1) as nat));
                            }
                            arr.push(v);
                            cur = j;
                            proof {
                                curf = (curf - 1) as nat;
                            }
                        },
                        Err(_) => {
                            return Err((Expected::CloseBracket, cur));
                        },
                    }
                } else {
                    if cur < n && s[cur] == ']' {
                        return Ok((JsonValue::Array(arr), cur + 1));
                    } else {
                        return Err((Expected::CloseBracket, cur));
                    }
                }
            }
        },
    }
}

/// Parses one `"key": value` pair at `i`.
fn p_pair(s: &Vec<char>, i: usize, Ghost(f): Ghost<nat>) -> (r: Result<
    ((String, JsonValue), usize),
    (Expected, usize),
>)
    requires
        i <= s@.len(),
        f >= 2 * (s@.len() - i) + 1,
    ensures
        match r {
            Ok((kv, j)) => i < j <= s@.len() && kv.1.wf() && sp_pair(s@, i as int, f) == Ok::<
                _,
                (Expected, int),
            >(((kv.0@, kv.1@), j as int)),
            Err(te) => te.1 <= s@.len() && sp_pair(s@, i as int, f) == Err::<
                ((Seq<char>, Json), int),
                _,
            >((te.0, te.1 as int)),
        },
    decreases s@.len() - i, 0int,
{
    let n = s.len();
    proof {
        assert(f > 0);
    }
    if i < n && s[i] == '"' {
        match p_string(s, i + 1) {
            Ok((k, j)) => {
                let j2 = p_skip_ws(s, j);
                proof {
                    lemma_skip_ws(s@, j as int);
                }
                if j2 < n && s[j2] == ':' {
                    match p_value(s, j2 + 1, Ghost((f - 1) as nat)) {
                        Ok((v, j3)) => Ok(((k, v), j3)),
                        Err(p) => Err(p),
                    }
                } else {
                    Err((Expected::Colon, j2))
                }
            },
            Err(p) => Err(p),
        }
    } else {
        Err((Expected::Key, i))
    }
}

/// Parses the entry list and closing brace of an object, from just after
/// the opening brace.  A later value under an equal key replaces the
/// earlier one in place.
fn p_object(s: &Vec<char>, i: usize, Ghost(g): Ghost<nat>) -> (r: Result<
    (JsonValue, usize),
    (Expected, usize),
>)
    requires
        i <= s@.len(),
        g >= 2 * (s@.len() - i) + 3,
    ensures
        match r {
            Ok((v, p)) => i < p <= s@.len() && v.wf() && sp_object(s@, i as int, g) == Ok::<
                _,
                (Expected, int),
            >((v@, p as int)),
            Err(te) => te.1 <= s@.len() && sp_object(s@, i as int, g) == Err::<(Json, int), _>(
                (te.0, te.1 as int),
            ),
        },
    decreases s@.len() - i, 1int,
{
    let n = s.len();
    proof {
        assert(g > 0);
    }
    let j = p_skip_ws(s, i);
    proof {
        lemma_skip_ws(s@, i as int);
    }
    match p_pair(s, j, Ghost((g - 1) as nat)) {
        Err(_) => {
            if j < n && s[j] == '}' {
                Ok((JsonValue::Object(JsonObject::new()), j + 1))
            } else {
                Err((Expected::CloseBrace, j))
            }
        },
        Ok(((k, v), j2)) => {
            let mut obj = JsonObject::new();
            obj.set(k, v);
            let mut cur = j2;
            let ghost mut curf: nat = (g - 1) as nat;
            loop
                invariant
                    i < cur <= n,
                    n == s@.len(),
                    curf >= 2 * (n - cur) + 1,
                    obj.wf(),
                    sp_more_pairs(s@, cur as int, obj@, curf) == sp_object(s@, i as int, g),
                decreases n - cur,
            {
                proof {
                    assert(curf > 0);
                }
                if cur < n && s[cur] == ',' {
                    let j3 = p_skip_ws(s, cur + 1);
                    proof {
                        lemma_skip_ws(s@, cur + 1);
                    }
                    match p_pair(s, j3, Ghost((curf - 1) as nat)) {
                        Ok(((k2, v2), j4)) => {
                            proof {
                                assert(sp_more_pairs(s@, cur as int, obj@, curf)
                                    == sp_more_pairs(
                                    s@,
                                    j4 as int,
                                    crate::object::obj_set(obj@, k2@, v2@),
                                    (curf - 1) as nat,
                                ));
                            }
                            obj.set(k2, v2);
                            cur = j4;
                            proof {
                                curf = (curf - 1) as nat;
                            }
                        },
                        Err(_) => {
                            return Err((Expected::CloseBrace, cur));
                        },
                    }
                } else {
                    if cur < n && s[cur] == '}' {
                        return Ok((JsonValue::Object(obj), cur + 1));
                    } else {
                        return Err((Expected::CloseBrace, cur));
                    }
                }
            }
        },
    }
}

/// The decimal text of a count: `"0"` for zero, no leading zeros
/// otherwise.
pub open spec fn dec_str(x: int) -> Seq<char> {
    if x <= 0 {
        seq!['0']
    } else {
        digit_chars(int_digits(x as nat))
    }
}

/// The words naming each construct in a syntax-error message.
pub open spec fn expect_text(e: Expected) -> Seq<char> {
    match e {
        Expected::Value => "a value"@,
        Expected::Digits => "digits"@,
        Expected::Colon => "a colon"@,
        Expected::CloseQuote => "a closing quote"@,
        Expected::Escape => "an escape sequence"@,
        Expected::HexEscape => "a hexadecimal escape"@,
        Expected::Key => "a key"@,
        Expected::CloseBracket => "a closing bracket"@,
        Expected::CloseBrace => "a closing brace"@,
    }
}

/// The message a failed parse carries: the expected construct and the
/// input position.
pub open spec fn syntax_msg(e: Expected, p: int) -> Seq<char> {
    "Syntax error: expected "@ + expect_text(e) + " at character "@ + dec_str(p)
}

/// The message a parse carries when non-whitespace input remains after
/// the top-level value: the unparsed character count and a preview of at
/// most twenty characters.
pub open spec fn incomplete_msg(count: int, preview: Seq<char>) -> Seq<char> {
    "Incomplete parsing: "@ + dec_str(count)
        + " characters were left unparsed. Remaining input: '"@ + preview + "'"@
}

/// Appends the decimal text of `x`.
fn append_dec(out: &mut String, x: usize)
    ensures
        final(out)@ == old(out)@ + dec_str(x as int),
{
    if x == 0 {
        push_char(out, '0');
        proof {
            assert(old(out)@.push('0') =~= old(out)@ + dec_str(0));
        }
        return ;
    }
    let ds = JsonNumber::digit_vec(x as u128);
    proof {
        crate::number::lemma_int_digits(x as nat);
    }
    let dn = ds.len();
    crate::render::write_digits(&ds, 0, dn, out);
    proof {
        assert(ds@.subrange(0, dn as int) =~= ds@);
    }
}

/// The errors the parsing boundary reports, unified with the casting
/// errors so that a parse followed by a cast uses one error channel.
#[derive(Debug, Clone, PartialEq)]
pub enum ConversationError {
    /// A syntactic failure, or non-whitespace input left after the value.
    ParsingError(String),
    /// A structural mismatch between the parsed value and what was asked
    /// of it.
    GenericError(String),
    /// A casting failure that followed a successful parse.
    Cast(CastError),
}

/// The recursive-descent parser.
pub struct JsonParser;

impl JsonParser {
    /// Parses a whole JSON text into a value.
    ///
    /// Succeeds exactly when a value parses at the start and nothing but
    /// whitespace follows it; the parsed value is canonical and
    /// well-formed.  A syntax error reports the offending position; a
    /// trailing remainder reports its character count and a preview of
    /// its first twenty characters.
    pub fn parse(json_str: &str) -> (r: Result<JsonValue, ConversationError>)
        ensures
            match r {
                Ok(v) => v.wf() && sp_doc(json_str@) == Ok::<_, (Expected, int)>(
                    (v@, json_str@.len() as int),
                ),
                Err(e) => match e {
                    ConversationError::ParsingError(m) => match sp_doc(json_str@) {
                        Ok((j, end)) => end < json_str@.len() && m@ == incomplete_msg(
                            json_str@.len() - end,
                            json_str@.subrange(
                                end,
                                if end + 20 <= json_str@.len() {
                                    end + 20
                                } else {
                                    json_str@.len() as int
                                },
                            ),
                        ),
                        Err(te) => m@ == syntax_msg(te.0, te.1),
                    },
                    _ => false,
                },
            },
    {
        let cs = str_to_chars(json_str);
        let n = cs.len();
        match p_value(&cs, 0, Ghost(fuel_at(cs@, 0))) {
            Ok((v, j)) => {
                if j == n {
                    Ok(v)
                } else {
                    let count = n - j;
                    let hi = if n - j >= 20 {
                        j + 20
                    } else {
                        n
                    };
                    let mut m = String::new();
                    m.append("Incomplete parsing: ");
                    append_dec(&mut m, count);
                    m.append(" characters were left unparsed. Remaining input: '");
                    let ghost mpre = m@;
                    let mut k = j;
                    while k < hi
                        invariant
                            j <= k <= hi <= n,
                            n == cs@.len(),
                            m@ == mpre + cs@.subrange(j as int, k as int),
                        decreases hi - k,
                    {
                        push_char(&mut m, cs[k]);
                        proof {
                            assert(m@ =~= mpre + cs@.subrange(j as int, k + 1));
                        }
                        k = k + 1;
                    }
                    m.append("'");
                    proof {
                        assert(m@ =~= incomplete_msg(
                            cs@.len() - j,
                            cs@.subrange(
                                j as int,
                                if j + 20 <= cs@.len() {
                                    j + 20
                                } else {
                                    cs@.len() as int
                                },
                            ),
                        ));
                    }
                    Err(ConversationError::ParsingError(m))
                }
            },
            Err((te, p)) => {
                let mut m = String::new();
                m.append("Syntax error: expected ");
                match te {
                    Expected::Value => m.append("a value"),
                    Expected::Digits => m.append("digits"),
                    Expected::Colon => m.append("a colon"),
                    Expected::CloseQuote => m.append("a closing quote"),
                    Expected::Escape => m.append("an escape sequence"),
                    Expected::HexEscape => m.append("a hexadecimal escape"),
                    Expected::Key => m.append("a key"),
                    Expected::CloseBracket => m.append("a closing bracket"),
                    Expected::CloseBrace => m.append("a closing brace"),
                }
                m.append(" at character ");
                append_dec(&mut m, p);
                proof {
                    assert(m@ =~= syntax_msg(te, p as int));
                }
                Err(ConversationError::ParsingError(m))
            },
        }
    }
}

} // verus!
