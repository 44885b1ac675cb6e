//! Laws relating the components: parsing the compact rendering of any
//! well-formed value yields that value back, and wrapping a native value
//! and casting it out again returns the original.

use vstd::prelude::*;

use crate::casting::FromJson;
use crate::casting::ToJson;
use crate::number::NumModel;
use crate::number::digit_char;
use crate::number::digit_chars;
use crate::number::num_wf;
use crate::number::render_num;
use crate::number::zero_chars;
use crate::parser::char_digit;
use crate::parser::hexv;
use crate::parser::is_digit_c;
use crate::parser::is_ws;
use crate::parser::scan_digits;
use crate::parser::skip_ws;
use crate::object::obj_set;
use crate::parser::sp_array;
use crate::parser::sp_close_arr;
use crate::parser::sp_close_obj;
use crate::parser::sp_doc;
use crate::parser::sp_more_elems;
use crate::parser::sp_more_pairs;
use crate::parser::sp_number;
use crate::parser::sp_object;
use crate::parser::sp_pair;
use crate::parser::sp_value;
use crate::parser::sp_string;
use crate::render::esc_char;
use crate::render::render_elems;
use crate::render::render_elems_rest;
use crate::render::render_entries;
use crate::render::render_entries_rest;
use crate::render::render_entry;
use crate::render::render_value;
use crate::render::escape_str;
use crate::formatter::indent_chars;
use crate::formatter::pretty_elems;
use crate::formatter::pretty_entries;
use crate::formatter::pretty_value;
use crate::formatter::sat_add_usize;
use crate::render::hex_digit;
use crate::value::Json;
use crate::value::keys_unique;
use crate::value::wf_json;

verus! {


/// Scanning a digit run bounded by a non-digit ends at the bound.
proof fn lemma_scan_run(s: Seq<char>, a: int, b: int)
    requires
        0 <= a <= b <= s.len(),
        forall|k: int| a <= k < b ==> is_digit_c(#[trigger] s[k]),
        b == s.len() || !is_digit_c(s[b]),
    ensures
        scan_digits(s, a) == b,
    decreases b - a,
{
    if a < b {
        lemma_scan_run(s, a + 1, b);
    }
}

/// A digit character is a digit and decodes to its digit.
proof fn lemma_digit_char_digit(d: u8)
    requires
        d < 10,
    ensures
        is_digit_c(digit_char(d)),
        char_digit(digit_char(d)) == d,
        digit_char(d) != '.',
        digit_char(d) != 'e' && digit_char(d) != 'E',
        digit_char(d) != '-' && digit_char(d) != '+',
        !is_ws(digit_char(d)),
{
    assert((digit_char(d) as u32) == 0x30 + d);
}

/// A hexadecimal digit character decodes to its value.
proof fn lemma_hexv_digit(d: u32)
    requires
        d < 16,
    ensures
        hexv(hex_digit(d)) == d,
{
    if d < 10 {
        assert((hex_digit(d) as u32) == 0x30 + d);
    } else {
        assert((hex_digit(d) as u32) == 0x57 + d);
    }
}

/// Parsing the escaped form of a string, followed by its closing quote,
/// recovers exactly the characters.
proof fn lemma_sp_string_render(s: Seq<char>, i: int, cs: Seq<char>)
    requires
        0 <= i,
        i + escape_str(cs).len() + 1 <= s.len(),
        s.subrange(i, i + escape_str(cs).len()) == escape_str(cs),
        s[i + escape_str(cs).len()] == '"',
    ensures
        sp_string(s, i) == Ok::<_, (crate::parser::Expected, int)>((cs, i + escape_str(cs).len() + 1)),
    decreases cs.len(),
{
    if cs.len() == 0 {
        assert(escape_str(cs).len() == 0);
        assert(s[i] == '"');
        assert(cs =~= Seq::<char>::empty());
    } else {
        let c = cs[0];
        let e = esc_char(c);
        let rest = escape_str(cs.drop_first());
        assert(escape_str(cs) == e + rest);
        let el = e.len() as int;
        assert forall|k: int| 0 <= k < el implies s[i + k] == e[k] by {
            assert(s.subrange(i, i + escape_str(cs).len())[k] == s[i + k]);
            assert((e + rest)[k] == e[k]);
        }
        assert(s.subrange(i + el, i + el + rest.len()) =~= rest) by {
            assert forall|k: int| 0 <= k < rest.len() implies s.subrange(
                i + el,
                i + el + rest.len(),
            )[k] == rest[k] by {
                assert(s.subrange(i, i + escape_str(cs).len())[el + k] == s[i + el + k]);
                assert((e + rest)[el + k] == rest[k]);
            }
        }
        assert(s[i + el + rest.len()] == '"');
        lemma_sp_string_render(s, i + el, cs.drop_first());
        let u = c as u32;
        if c == '"' || c == '\\' || c == '\n' || c == '\r' || c == '\t' || u == 0x8 || u == 0xc {
            // two-character escape
            if c == '"' {
                assert(e =~= seq!['\\', '"']);
            } else if c == '\\' {
                assert(e =~= seq!['\\', '\\']);
            } else if c == '\n' {
                assert(e =~= seq!['\\', 'n']);
            } else if c == '\r' {
                assert(e =~= seq!['\\', 'r']);
            } else if c == '\t' {
                assert(e =~= seq!['\\', 't']);
            } else if u == 0x8 {
                assert(e =~= seq!['\\', 'b']);
            } else {
                assert(e =~= seq!['\\', 'f']);
            }
            assert(e.len() == 2);
            assert(s[i + 0] == e[0]);
            assert(s[i] == s[i + 0]);
            assert(s[i] == '\\');
            let ec = s[i + 1];
            assert(ec == e[1]);
            if u == 0x8 {
                vstd::utf8::char_u32_cast(c, u);
                assert(('\u{8}' as u32) == 8);
                vstd::utf8::char_u32_cast('\u{8}', 8);
                assert(c == '\u{8}');
            }
            if u == 0xc {
                vstd::utf8::char_u32_cast(c, u);
                assert(('\u{c}' as u32) == 12);
                vstd::utf8::char_u32_cast('\u{c}', 12);
                assert(c == '\u{c}');
            }
            assert(crate::parser::unescape_char(ec) == c);
            assert(sp_string(s, i) == Ok::<_, (crate::parser::Expected, int)>((seq![c] + cs.drop_first(), i + el
                + rest.len() + 1)));
            assert(seq![c] + cs.drop_first() =~= cs);
        } else if u < 0x20 {
            // \u00XX escape
            assert(e =~= seq!['\\', 'u', '0', '0', hex_digit(u / 16), hex_digit(u % 16)]);
            assert(s[i + 0] == e[0]);
            assert(s[i] == s[i + 0]);
            assert(s[i] == '\\' && s[i + 1] == 'u');
            assert(s[i + 2] == '0' && s[i + 3] == '0');
            assert(hexv('0') == 0);
            lemma_hexv_digit(u / 16);
            lemma_hexv_digit(u % 16);
            assert(s[i + 4] == hex_digit(u / 16));
            assert(s[i + 5] == hex_digit(u % 16));
            let code = hexv(s[i + 2]) * 4096 + hexv(s[i + 3]) * 256 + hexv(s[i + 4]) * 16 + hexv(
                s[i + 5],
            );
            assert(code == u);
            vstd::utf8::char_u32_cast(c, u);
            assert(((code as u32) as char) == c);
            assert(sp_string(s, i) == Ok::<_, (crate::parser::Expected, int)>((seq![c] + cs.drop_first(), i + el
                + rest.len() + 1)));
            assert(seq![c] + cs.drop_first() =~= cs);
        } else {
            // the character stands as itself
            assert(e =~= seq![c]);
            assert(s[i + 0] == e[0]);
            assert(s[i] == s[i + 0]);
            assert(s[i] == c);
            assert(c != '"' && c != '\\');
            assert(sp_string(s, i) == Ok::<_, (crate::parser::Expected, int)>((seq![c] + cs.drop_first(), i + el
                + rest.len() + 1)));
            assert(seq![c] + cs.drop_first() =~= cs);
        }
    }
}

/// `m` zero digits.
pub open spec fn zeros_u8(m: int) -> Seq<u8> {
    Seq::new(
        if m < 0 {
            0
        } else {
            m as nat
        },
        |k: int| 0u8,
    )
}

/// Appending zero digits to a string ending in a non-zero digit makes
/// exactly that many trailing zeros.
proof fn lemma_trailing_append_zeros(a: Seq<u8>, m: int)
    requires
        a.len() > 0,
        a[a.len() - 1] != 0,
        m >= 0,
    ensures
        crate::number::trailing_zeros(a + zeros_u8(m)) == m,
    decreases m,
{
    if m == 0 {
        assert(a + zeros_u8(0) =~= a);
        assert(crate::number::trailing_zeros(a) == 0);
    } else {
        lemma_trailing_append_zeros(a, m - 1);
        assert((a + zeros_u8(m)).last() == 0);
        assert((a + zeros_u8(m)).drop_last() =~= a + zeros_u8(m - 1));
    }
}

/// Prepending zero digits to a string starting with a non-zero digit
/// makes exactly that many leading zeros.
proof fn lemma_leading_prepend_zeros(m: int, a: Seq<u8>)
    requires
        a.len() > 0,
        a[0] != 0,
        m >= 0,
    ensures
        crate::number::leading_zeros(zeros_u8(m) + a) == m,
    decreases m,
{
    if m == 0 {
        assert(zeros_u8(0) + a =~= a);
        assert(crate::number::leading_zeros(a) == 0);
    } else {
        lemma_leading_prepend_zeros(m - 1, a);
        assert((zeros_u8(m) + a)[0] == 0);
        assert((zeros_u8(m) + a).drop_first() =~= zeros_u8(m - 1) + a);
    }
}

/// The character of `s` at offset `k` into an embedded rendering `r`.
proof fn lemma_char_at(s: Seq<char>, i: int, r: Seq<char>, k: int)
    requires
        0 <= i,
        0 <= k < r.len(),
        i + r.len() <= s.len(),
        s.subrange(i, i + r.len() as int) == r,
    ensures
        s[i + k] == r[k],
{
    assert(s.subrange(i, i + r.len() as int)[k] == s[i + k]);
}

/// Parsing the plain decimal rendering of a canonical number recovers
/// exactly that number.
#[verifier::rlimit(100)]
proof fn lemma_sp_number_render(s: Seq<char>, i: int, n: NumModel)
    requires
        num_wf(n),
        0 <= i,
        i + render_num(n).len() <= s.len(),
        s.subrange(i, i + render_num(n).len()) == render_num(n),
        i + render_num(n).len() == s.len() || !(is_digit_c(s[i + render_num(n).len()])
            || s[i + render_num(n).len()] == '.' || s[i + render_num(n).len()] == 'e'
            || s[i + render_num(n).len()] == 'E'),
    ensures
        sp_number(s, i) == Ok::<_, (crate::parser::Expected, int)>((n, i + render_num(n).len())),
{
    let r = render_num(n);
    let rl = r.len() as int;
    let e = i + rl;
    assert forall|k: int| 0 <= k < rl implies s[i + k] == r[k] by {
        assert(s.subrange(i, i + rl)[k] == s[i + k]);
    }
    let dl = n.digits.len() as int;
    if dl == 0 {
        // zero renders as the single digit 0
        assert(r =~= seq!['0']);
        assert(r[0] == '0');
        assert(s[i + 0] == '0');
        assert(s[i] == s[i + 0]);
        assert(is_digit_c('0'));
        assert(crate::parser::num_start(s, i) == i);
        assert(!crate::parser::num_neg(s, i));
        lemma_scan_run(s, i, i + 1);
        assert(crate::parser::frac_end(s, i + 1) == i + 1);
        assert(crate::parser::exp_end(s, i + 1) == i + 1);
        let ds = crate::parser::digits_range(s, i, i + 1);
        assert(ds =~= seq![0u8]) by {
            assert(char_digit('0') == 0);
        }
        assert(crate::number::trailing_zeros(seq![0u8]) == 1) by {
            assert(seq![0u8].last() == 0);
            assert(seq![0u8].drop_last() =~= Seq::<u8>::empty());
            assert(crate::number::trailing_zeros(Seq::<u8>::empty()) == 0);
        }
        assert(crate::number::leading_zeros(seq![0u8]) == 1) by {
            assert(seq![0u8][0] == 0);
            assert(seq![0u8].drop_first() =~= Seq::<u8>::empty());
            assert(crate::number::leading_zeros(Seq::<u8>::empty()) == 0);
        }
        let m = crate::number::norm_num(false, ds + Seq::<u8>::empty(), 0);
        assert(ds + Seq::<u8>::empty() =~= seq![0u8]);
        assert(m.digits == Seq::<u8>::empty());
        assert(n.digits =~= Seq::<u8>::empty());
        assert(m == n);
    } else {
        let sign: int = if n.neg {
            1
        } else {
            0
        };
        let i0 = i + sign;
        if n.neg {
            lemma_char_at(s, i, r, 0);
            assert(r[0] == '-');
            assert(s[i + 0] == '-');
            assert(s[i] == s[i + 0]);
            assert(crate::parser::num_neg(s, i));
            assert(crate::parser::num_start(s, i) == i0);
        }
        assert forall|k: int| 0 <= k < dl implies is_digit_c(digit_char(#[trigger] n.digits[k]))
            && char_digit(digit_char(n.digits[k])) == n.digits[k] by {
            lemma_digit_char_digit(n.digits[k]);
        }
        if n.exp >= 0 {
            // integer form: the digits, then exp zeros
            let run = dl + n.exp;
            assert(r =~= (if n.neg {
                seq!['-']
            } else {
                Seq::<char>::empty()
            }) + digit_chars(n.digits) + zero_chars(n.exp));
            assert forall|k: int| 0 <= k < run implies is_digit_c(#[trigger] s[i0 + k]) by {
                lemma_char_at(s, i, r, sign + k);
                if k < dl {
                    assert(r[sign + k] == digit_chars(n.digits)[k]);
                    assert(s[i0 + k] == digit_char(n.digits[k]));
                } else {
                    assert(r[sign + k] == zero_chars(n.exp)[k - dl]);
                    assert(s[i0 + k] == '0');
                }
            }
            if !n.neg {
                lemma_char_at(s, i, r, 0);
                assert(r[0] == digit_chars(n.digits)[0]);
                assert(s[i + 0] == digit_char(n.digits[0]));
                assert(s[i] == s[i + 0]);
                lemma_digit_char_digit(n.digits[0]);
                assert(!crate::parser::num_neg(s, i));
                assert(crate::parser::num_start(s, i) == i0);
            }
            assert forall|q2: int| i0 <= q2 < i0 + run implies is_digit_c(#[trigger] s[q2]) by {
                assert(s[q2] == s[i0 + (q2 - i0)]);
            }
            lemma_scan_run(s, i0, i0 + run);
            let e1 = i0 + run;
            assert(e1 == e);
            assert(crate::parser::frac_end(s, e1) == e1);
            assert(crate::parser::exp_end(s, e1) == e1);
            let ds = crate::parser::digits_range(s, i0, e1);
            assert(ds =~= n.digits + zeros_u8(n.exp)) by {
                assert forall|k: int| 0 <= k < run implies ds[k] == (n.digits + zeros_u8(
                    n.exp,
                ))[k] by {
                    lemma_char_at(s, i, r, sign + k);
                    if k < dl {
                        assert(r[sign + k] == digit_chars(n.digits)[k]);
                        assert(s[i0 + k] == digit_char(n.digits[k]));
                        lemma_digit_char_digit(n.digits[k]);
                    } else {
                        assert(r[sign + k] == zero_chars(n.exp)[k - dl]);
                        assert(s[i0 + k] == '0');
                        assert(char_digit('0') == 0);
                    }
                }
            }
            lemma_trailing_append_zeros(n.digits, n.exp);
            let m = crate::number::norm_num(n.neg, ds + Seq::<u8>::empty(), 0);
            assert(ds + Seq::<u8>::empty() =~= ds);
            assert(crate::number::trailing_zeros(ds) == n.exp);
            assert(crate::number::leading_zeros(ds) == 0) by {
                assert(ds[0] == n.digits[0]);
            }
            assert(crate::number::clamp_exp(0 + n.exp) == n.exp);
            assert(m.digits =~= n.digits) by {
                assert(m.digits == ds.subrange(0, ds.len() - n.exp));
            }
            assert(m == n);
        } else {
            let k = dl + n.exp;
            if k > 0 {
                // digits with a point inside
                assert(r =~= (if n.neg {
                    seq!['-']
                } else {
                    Seq::<char>::empty()
                }) + digit_chars(n.digits.take(k)) + seq!['.'] + digit_chars(n.digits.skip(k)));
                assert forall|q: int| 0 <= q < k implies is_digit_c(#[trigger] s[i0 + q]) by {
                    lemma_char_at(s, i, r, sign + q);
                    assert(r[sign + q] == digit_chars(n.digits.take(k))[q]);
                    assert(s[i0 + q] == digit_char(n.digits[q]));
                    lemma_digit_char_digit(n.digits[q]);
                }
                assert(s[i0 + k] == '.') by {
                    lemma_char_at(s, i, r, sign + k);
                    assert(r[sign + k] == '.');
                }
                if !n.neg {
                    lemma_char_at(s, i, r, 0);
                    assert(s[i + 0] == r[0]);
                    assert(r[0] == digit_chars(n.digits.take(k))[0]);
                    assert(n.digits.take(k)[0] == n.digits[0]);
                    assert(s[i + 0] == digit_char(n.digits[0]));
                    assert(s[i] == s[i + 0]);
                    lemma_digit_char_digit(n.digits[0]);
                    assert(!crate::parser::num_neg(s, i));
                    assert(crate::parser::num_start(s, i) == i0);
                }
                assert(!is_digit_c('.'));
                assert forall|q2: int| i0 <= q2 < i0 + k implies is_digit_c(#[trigger] s[q2]) by {
                    assert(s[q2] == s[i0 + (q2 - i0)]);
                }
                lemma_scan_run(s, i0, i0 + k);
                let e1 = i0 + k;
                assert forall|q: int| 0 <= q < dl - k implies is_digit_c(
                    #[trigger] s[e1 + 1 + q],
                ) by {
                    lemma_char_at(s, i, r, sign + k + 1 + q);
                    assert(r[sign + k + 1 + q] == digit_chars(n.digits.skip(k))[q]);
                    assert(s[e1 + 1 + q] == digit_char(n.digits[k + q]));
                    lemma_digit_char_digit(n.digits[k + q]);
                }
                assert forall|q2: int| e1 + 1 <= q2 < e1 + 1 + (dl - k) implies is_digit_c(
                    #[trigger] s[q2],
                ) by {
                    assert(s[q2] == s[e1 + 1 + (q2 - e1 - 1)]);
                }
                lemma_scan_run(s, e1 + 1, e1 + 1 + (dl - k));
                let p1 = e1 + 1 + (dl - k);
                assert(p1 == e);
                assert(crate::parser::frac_end(s, e1) == p1);
                assert(crate::parser::exp_end(s, p1) == p1);
                let intd = crate::parser::digits_range(s, i0, e1);
                let fracd = crate::parser::digits_range(s, e1 + 1, p1);
                assert(intd + fracd =~= n.digits) by {
                    assert forall|q: int| 0 <= q < dl implies (intd + fracd)[q] == n.digits[q] by {
                        if q < k {
                            lemma_char_at(s, i, r, sign + q);
                            assert(r[sign + q] == digit_chars(n.digits.take(k))[q]);
                            assert(s[i0 + q] == digit_char(n.digits[q]));
                            lemma_digit_char_digit(n.digits[q]);
                        } else {
                            lemma_char_at(s, i, r, sign + k + 1 + (q - k));
                            assert(r[sign + k + 1 + (q - k)] == digit_chars(n.digits.skip(k))[q
                                - k]);
                            assert(s[e1 + 1 + (q - k)] == digit_char(n.digits[q]));
                            lemma_digit_char_digit(n.digits[q]);
                        }
                    }
                }
                let m = crate::number::norm_num(n.neg, intd + fracd, 0 - (dl - k));
                assert(crate::number::trailing_zeros(n.digits) == 0);
                assert(crate::number::leading_zeros(n.digits) == 0);
                assert(m.digits =~= n.digits) by {
                    assert(m.digits == n.digits.subrange(0, dl));
                }
                assert(crate::number::clamp_exp(0 - (dl - k) + 0) == n.exp);
                assert(m == n);
            } else {
                // 0.00digits form
                let z = -k;
                assert(r =~= (if n.neg {
                    seq!['-']
                } else {
                    Seq::<char>::empty()
                }) + seq!['0', '.'] + zero_chars(z) + digit_chars(n.digits));
                lemma_char_at(s, i, r, sign + 0);
                assert(r[sign + 0] == '0');
                assert(s[i0 + 0] == '0');
                assert(is_digit_c('0'));
                lemma_char_at(s, i, r, sign + 1);
                assert(r[sign + 1] == '.');
                assert(s[i0 + 1] == '.');
                if !n.neg {
                    lemma_char_at(s, i, r, 0);
                    assert(r[0] == '0');
                    assert(s[i] == s[i + 0]);
                    assert(s[i + 0] == '0');
                    assert(!crate::parser::num_neg(s, i));
                    assert(crate::parser::num_start(s, i) == i0);
                }
                assert(s[i0] == s[i0 + 0]);
                assert(!is_digit_c('.'));
                lemma_scan_run(s, i0, i0 + 1);
                let e1 = i0 + 1;
                assert forall|q: int| 0 <= q < z + dl implies is_digit_c(
                    #[trigger] s[e1 + 1 + q],
                ) by {
                    lemma_char_at(s, i, r, sign + 2 + q);
                    if q < z {
                        assert(r[sign + 2 + q] == zero_chars(z)[q]);
                        assert(s[e1 + 1 + q] == '0');
                    } else {
                        assert(r[sign + 2 + q] == digit_chars(n.digits)[q - z]);
                        assert(s[e1 + 1 + q] == digit_char(n.digits[q - z]));
                        lemma_digit_char_digit(n.digits[q - z]);
                    }
                }
                assert forall|q2: int| e1 + 1 <= q2 < e1 + 1 + z + dl implies is_digit_c(
                    #[trigger] s[q2],
                ) by {
                    assert(s[q2] == s[e1 + 1 + (q2 - e1 - 1)]);
                }
                lemma_scan_run(s, e1 + 1, e1 + 1 + z + dl);
                let p1 = e1 + 1 + z + dl;
                assert(p1 == e);
                assert(crate::parser::frac_end(s, e1) == p1);
                assert(crate::parser::exp_end(s, p1) == p1);
                let intd = crate::parser::digits_range(s, i0, e1);
                let fracd = crate::parser::digits_range(s, e1 + 1, p1);
                assert(intd + fracd =~= zeros_u8(1 + z) + n.digits) by {
                    assert forall|q: int| 0 <= q < 1 + z + dl implies (intd + fracd)[q] == (
                    zeros_u8(1 + z) + n.digits)[q] by {
                        if q == 0 {
                            assert(s[i0 + 0] == '0');
                            assert(char_digit('0') == 0);
                        } else if q < 1 + z {
                            lemma_char_at(s, i, r, sign + 2 + (q - 1));
                            assert(r[sign + 2 + (q - 1)] == zero_chars(z)[q - 1]);
                            assert(s[e1 + 1 + (q - 1)] == '0');
                            assert(char_digit('0') == 0);
                        } else {
                            lemma_char_at(s, i, r, sign + 2 + (q - 1));
                            assert(r[sign + 2 + (q - 1)] == digit_chars(n.digits)[q - 1 - z]);
                            assert(s[e1 + 1 + (q - 1)] == digit_char(n.digits[q - 1 - z]));
                            lemma_digit_char_digit(n.digits[q - 1 - z]);
                        }
                    }
                }
                let m = crate::number::norm_num(n.neg, intd + fracd, 0 - (z + dl));
                lemma_leading_prepend_zeros(1 + z, n.digits);
                assert(crate::number::trailing_zeros(zeros_u8(1 + z) + n.digits) == 0) by {
                    assert((zeros_u8(1 + z) + n.digits).last() == n.digits.last());
                }
                assert(m.digits =~= n.digits) by {
                    assert(m.digits == (zeros_u8(1 + z) + n.digits).subrange(1 + z, 1 + z + dl));
                }
                assert(crate::number::clamp_exp(0 - (z + dl) + 0) == n.exp);
                assert(m == n);
            }
        }
    }
}

/// No character that could extend a number stands at `e`.
pub open spec fn num_boundary(s: Seq<char>, e: int) -> bool {
    e == s.len() || !(is_digit_c(s[e]) || s[e] == '.' || s[e] == 'e' || s[e] == 'E')
}

/// A rendering is never empty and starts with a significant character.
proof fn lemma_render_first(j: Json)
    requires
        wf_json(j),
    ensures
        render_value(j).len() >= 1,
        !is_ws(render_value(j)[0]),
{
    let r = render_value(j);
    match j {
        Json::Str(cs) => {
            assert(r[0] == '"');
        },
        Json::Num(n) => {
            if n.digits.len() == 0 {
                assert(r =~= seq!['0']);
            } else if n.neg {
                assert(r[0] == '-');
            } else if n.exp >= 0 {
                assert(r[0] == digit_char(n.digits[0]));
                lemma_digit_char_digit(n.digits[0]);
            } else if n.digits.len() + n.exp > 0 {
                assert(r[0] == digit_chars(n.digits.take(n.digits.len() + n.exp))[0]);
                assert(r[0] == digit_char(n.digits[0]));
                lemma_digit_char_digit(n.digits[0]);
            } else {
                assert(r[0] == '0');
            }
        },
        Json::Bool(b) => {
            proof_strlits();
            if b {
                assert(r == "true"@);
            } else {
                assert(r == "false"@);
            }
        },
        Json::Null => {
            proof_strlits();
            assert(r == "null"@);
        },
        Json::Arr(_) => {
            assert(r[0] == '[');
        },
        Json::Obj(_) => {
            assert(r[0] == '{');
        },
    }
}

/// The character contents of the literal words.
proof fn proof_strlits()
    ensures
        "true"@ =~= seq!['t', 'r', 'u', 'e'],
        "false"@ =~= seq!['f', 'a', 'l', 's', 'e'],
        "null"@ =~= seq!['n', 'u', 'l', 'l'],
{
    reveal_strlit("true");
    reveal_strlit("false");
    reveal_strlit("null");
}

/// Parsing at `i`, where whitespace leads to `start` and the rendering of
/// a well-formed value sits at `start` with nothing number-like after it,
/// recovers exactly that value, ending after the trailing whitespace.
#[verifier::rlimit(100)]
proof fn lemma_sp_value_render(s: Seq<char>, i: int, start: int, j: Json, f: nat)
    requires
        wf_json(j),
        0 <= i <= start,
        skip_ws(s, i) == start,
        start + render_value(j).len() <= s.len(),
        s.subrange(start, start + render_value(j).len() as int) == render_value(j),
        num_boundary(s, start + render_value(j).len()),
        f >= 2 * (s.len() - i) + 2,
    ensures
        sp_value(s, i, f) == Ok::<_, (crate::parser::Expected, int)>(
            (j, skip_ws(s, start + render_value(j).len() as int)),
        ),
    decreases j, 1int,
{
    let r = render_value(j);
    let rl = r.len() as int;
    let e = start + rl;
    lemma_render_first(j);
    lemma_char_at(s, start, r, 0);
    crate::parser::lemma_skip_ws(s, i);
    assert(start < s.len());
    let c = s[start];
    assert(c == r[0]);
    match j {
        Json::Str(cs) => {
            assert(r == seq!['"'] + escape_str(cs) + seq!['"']);
            assert(c == '"');
            assert(s.subrange(start + 1, start + 1 + escape_str(cs).len() as int) =~= escape_str(
                cs,
            )) by {
                assert forall|k: int|
                    0 <= k < escape_str(cs).len() implies s.subrange(
                    start + 1,
                    start + 1 + escape_str(cs).len() as int,
                )[k] == escape_str(cs)[k] by {
                    lemma_char_at(s, start, r, 1 + k);
                    assert(r[1 + k] == escape_str(cs)[k]);
                }
            }
            lemma_char_at(s, start, r, rl - 1);
            assert(r[rl - 1] == '"');
            assert(s[start + 1 + escape_str(cs).len()] == '"');
            lemma_sp_string_render(s, start + 1, cs);
            assert(sp_value(s, i, f) == Ok::<_, (crate::parser::Expected, int)>((Json::Str(cs), skip_ws(s, e))));
        },
        Json::Num(n) => {
            assert(!(c == '"'));
            if n.digits.len() == 0 {
                assert(r =~= seq!['0']);
                assert(c == '0');
                assert(is_digit_c(c));
            } else if n.neg {
                assert(c == '-');
            } else if n.exp >= 0 {
                assert(c == digit_char(n.digits[0]));
                lemma_digit_char_digit(n.digits[0]);
            } else if n.digits.len() + n.exp > 0 {
                assert(c == digit_chars(n.digits.take(n.digits.len() + n.exp))[0]);
                assert(c == digit_char(n.digits[0]));
                lemma_digit_char_digit(n.digits[0]);
            } else {
                assert(c == '0');
                assert(is_digit_c(c));
            }
            lemma_sp_number_render(s, start, n);
            assert(sp_value(s, i, f) == Ok::<_, (crate::parser::Expected, int)>((Json::Num(n), skip_ws(s, e))));
        },
        Json::Bool(b) => {
            proof_strlits();
            if b {
                assert(r =~= seq!['t', 'r', 'u', 'e']);
                assert(c == 't');
                lemma_char_at(s, start, r, 1);
                lemma_char_at(s, start, r, 2);
                lemma_char_at(s, start, r, 3);
                assert(s[start + 1] == 'r' && s[start + 2] == 'u' && s[start + 3] == 'e');
                assert(sp_value(s, i, f) == Ok::<_, (crate::parser::Expected, int)>((Json::Bool(true), skip_ws(s, e))));
            } else {
                assert(r =~= seq!['f', 'a', 'l', 's', 'e']);
                assert(c == 'f');
                lemma_char_at(s, start, r, 1);
                lemma_char_at(s, start, r, 2);
                lemma_char_at(s, start, r, 3);
                lemma_char_at(s, start, r, 4);
                assert(s[start + 1] == 'a' && s[start + 2] == 'l' && s[start + 3] == 's'
                    && s[start + 4] == 'e');
                assert(sp_value(s, i, f) == Ok::<_, (crate::parser::Expected, int)>((Json::Bool(false), skip_ws(s, e))));
            }
        },
        Json::Null => {
            proof_strlits();
            assert(r =~= seq!['n', 'u', 'l', 'l']);
            assert(c == 'n');
            lemma_char_at(s, start, r, 1);
            lemma_char_at(s, start, r, 2);
            lemma_char_at(s, start, r, 3);
            assert(s[start + 1] == 'u' && s[start + 2] == 'l' && s[start + 3] == 'l');
            assert(sp_value(s, i, f) == Ok::<_, (crate::parser::Expected, int)>((Json::Null, skip_ws(s, e))));
        },
        Json::Arr(ch) => {
            assert(r == seq!['['] + render_elems(ch) + seq![']']);
            assert(c == '[');
            let body = render_elems(ch);
            let bl = body.len() as int;
            assert forall|k: int| 0 <= k < bl implies s[start + 1 + k] == body[k] by {
                lemma_char_at(s, start, r, 1 + k);
                assert(r[1 + k] == body[k]);
            }
            lemma_char_at(s, start, r, rl - 1);
            assert(r[rl - 1] == ']');
            assert(s[start + 1 + bl] == ']');
            if ch.len() == 0 {
                assert(body.len() == 0);
                assert(s[start + 1] == ']');
                crate::parser::lemma_skip_ws(s, start + 1);
                assert(skip_ws(s, start + 1) == start + 1);
                assert(sp_value(s, start + 1, (f - 2) as nat) == Err::<(Json, int), _>(
                    (crate::parser::Expected::Value, start + 1),
                ));
                assert(sp_array(s, start + 1, (f - 1) as nat) == Ok::<_, (crate::parser::Expected, int)>(
                    (Json::Arr(Seq::empty()), start + 2),
                ));
                assert(Json::Arr(ch) == Json::Arr(Seq::<Json>::empty())) by {
                    assert(ch =~= Seq::<Json>::empty());
                }
                assert(sp_value(s, i, f) == Ok::<_, (crate::parser::Expected, int)>((Json::Arr(ch), skip_ws(s, e))));
            } else {
                let r0 = render_value(ch[0]);
                let rr = render_elems_rest(ch.drop_first());
                assert(body == r0 + rr);
                crate::value::lemma_wf_elem_at(ch, 0);
                assert(s.subrange(start + 1, start + 1 + r0.len() as int) =~= r0) by {
                    assert forall|k: int|
                        0 <= k < r0.len() implies s.subrange(
                        start + 1,
                        start + 1 + r0.len() as int,
                    )[k] == r0[k] by {
                        assert(s[start + 1 + k] == body[k]);
                        assert(body[k] == r0[k]);
                    }
                }
                let e0 = start + 1 + r0.len() as int;
                assert(s[e0] == (if rr.len() == 0 {
                    ']'
                } else {
                    ','
                })) by {
                    if rr.len() == 0 {
                        assert(e0 == start + 1 + bl);
                    } else {
                        assert(s[start + 1 + (r0.len() as int + 0)] == body[r0.len() as int + 0]);
                        assert(body[r0.len() as int] == rr[0]);
                        assert(rr[0] == ',');
                    }
                }
                assert(num_boundary(s, e0));
                crate::parser::lemma_skip_ws(s, start + 1);
                lemma_render_first(ch[0]);
                assert(s[start + 1] == r0[0]) by {
                    assert(s[start + 1 + 0] == body[0]);
                    assert(body[0] == r0[0]);
                }
                assert(skip_ws(s, start + 1) == start + 1);
                lemma_sp_value_render(s, start + 1, start + 1, ch[0], (f - 2) as nat);
                crate::parser::lemma_skip_ws(s, e0);
                assert(skip_ws(s, e0) == e0);
                assert(sp_value(s, start + 1, (f - 2) as nat) == Ok::<_, (crate::parser::Expected, int)>((ch[0], e0)));
                assert(s.subrange(e0, e0 + rr.len() as int) =~= rr) by {
                    assert forall|k: int|
                        0 <= k < rr.len() implies s.subrange(e0, e0 + rr.len() as int)[k]
                        == rr[k] by {
                        assert(s[start + 1 + (r0.len() as int + k)] == body[r0.len() as int + k]);
                        assert(body[r0.len() as int + k] == rr[k]);
                    }
                }
                assert(s[e0 + rr.len()] == ']') by {
                    assert(e0 + rr.len() == start + 1 + bl);
                }
                lemma_sp_elems_render(s, e0, seq![ch[0]], ch.drop_first(), (f - 2) as nat);
                assert(seq![ch[0]] + ch.drop_first() =~= ch);
                assert(sp_array(s, start + 1, (f - 1) as nat) == Ok::<_, (crate::parser::Expected, int)>(
                    (Json::Arr(ch), e),
                ));
                assert(sp_value(s, i, f) == Ok::<_, (crate::parser::Expected, int)>((Json::Arr(ch), skip_ws(s, e))));
            }
        },
        Json::Obj(ms) => {
            assert(r == seq!['{'] + render_entries(ms) + seq!['}']);
            assert(c == '{');
            let body = render_entries(ms);
            let bl = body.len() as int;
            assert forall|k: int| 0 <= k < bl implies s[start + 1 + k] == body[k] by {
                lemma_char_at(s, start, r, 1 + k);
                assert(r[1 + k] == body[k]);
            }
            lemma_char_at(s, start, r, rl - 1);
            assert(r[rl - 1] == '}');
            assert(s[start + 1 + bl] == '}');
            crate::parser::lemma_skip_ws(s, start + 1);
            if ms.len() == 0 {
                assert(body.len() == 0);
                assert(s[start + 1] == '}');
                assert(skip_ws(s, start + 1) == start + 1);
                assert(sp_pair(s, start + 1, (f - 2) as nat) == Err::<
                    ((Seq<char>, Json), int),
                    _,
                >((crate::parser::Expected::Key, start + 1)));
                assert(sp_object(s, start + 1, (f - 1) as nat) == Ok::<_, (crate::parser::Expected, int)>(
                    (Json::Obj(Seq::empty()), start + 2),
                ));
                assert(Json::Obj(ms) == Json::Obj(Seq::<(Seq<char>, Json)>::empty())) by {
                    assert(ms =~= Seq::<(Seq<char>, Json)>::empty());
                }
                assert(sp_value(s, i, f) == Ok::<_, (crate::parser::Expected, int)>((Json::Obj(ms), skip_ws(s, e))));
            } else {
                let r0 = render_entry(ms[0]);
                let rr = render_entries_rest(ms.drop_first());
                assert(body == r0 + rr);
                assert(s.subrange(start + 1, start + 1 + r0.len() as int) =~= r0) by {
                    assert forall|k: int|
                        0 <= k < r0.len() implies s.subrange(
                        start + 1,
                        start + 1 + r0.len() as int,
                    )[k] == r0[k] by {
                        assert(s[start + 1 + k] == body[k]);
                        assert(body[k] == r0[k]);
                    }
                }
                let e0 = start + 1 + r0.len() as int;
                assert(s[e0] == (if rr.len() == 0 {
                    '}'
                } else {
                    ','
                })) by {
                    if rr.len() == 0 {
                        assert(e0 == start + 1 + bl);
                    } else {
                        assert(s[start + 1 + (r0.len() as int + 0)] == body[r0.len() as int + 0]);
                        assert(body[r0.len() as int] == rr[0]);
                        assert(rr[0] == ',');
                    }
                }
                assert(s[start + 1] == r0[0]) by {
                    assert(s[start + 1 + 0] == body[0]);
                    assert(body[0] == r0[0]);
                }
                assert(r0[0] == '"');
                assert(skip_ws(s, start + 1) == start + 1);
                crate::value::lemma_wf_entry_at(ms, 0);
                assert(!is_ws(s[e0]));
                lemma_sp_pair_render(s, start + 1, ms[0], (f - 2) as nat);
                crate::parser::lemma_skip_ws(s, e0);
                assert(skip_ws(s, e0) == e0);
                assert(sp_pair(s, start + 1, (f - 2) as nat) == Ok::<_, (crate::parser::Expected, int)>((ms[0], e0)));
                assert(s.subrange(e0, e0 + rr.len() as int) =~= rr) by {
                    assert forall|k: int|
                        0 <= k < rr.len() implies s.subrange(e0, e0 + rr.len() as int)[k]
                        == rr[k] by {
                        assert(s[start + 1 + (r0.len() as int + k)] == body[r0.len() as int + k]);
                        assert(body[r0.len() as int + k] == rr[k]);
                    }
                }
                assert(s[e0 + rr.len()] == '}') by {
                    assert(e0 + rr.len() == start + 1 + bl);
                }
                assert(obj_set(Seq::empty(), ms[0].0, ms[0].1) =~= seq![ms[0]]);
                lemma_sp_pairs_render(s, e0, seq![ms[0]], ms.drop_first(), (f - 2) as nat);
                assert(seq![ms[0]] + ms.drop_first() =~= ms);
                assert(sp_object(s, start + 1, (f - 1) as nat) == Ok::<_, (crate::parser::Expected, int)>(
                    (Json::Obj(ms), e),
                ));
                assert(sp_value(s, i, f) == Ok::<_, (crate::parser::Expected, int)>((Json::Obj(ms), skip_ws(s, e))));
            }
        },
    }
}

/// After one parsed element, parsing the rendered rest of the element
/// list and the closing bracket yields all the elements.
#[verifier::rlimit(100)]
proof fn lemma_sp_elems_render(s: Seq<char>, pos: int, done: Seq<Json>, rest: Seq<Json>, f: nat)
    requires
        wf_json(Json::Arr(rest)),
        0 <= pos,
        pos + render_elems_rest(rest).len() + 1 <= s.len(),
        s.subrange(pos, pos + render_elems_rest(rest).len() as int) == render_elems_rest(rest),
        s[pos + render_elems_rest(rest).len()] == ']',
        f >= 2 * (s.len() - pos) + 1,
    ensures
        sp_more_elems(s, pos, done, f) == Ok::<_, (crate::parser::Expected, int)>(
            (Json::Arr(done + rest), pos + render_elems_rest(rest).len() + 1),
        ),
    decreases rest, 0int,
{
    let rr = render_elems_rest(rest);
    let rrl = rr.len() as int;
    if rest.len() == 0 {
        assert(rrl == 0);
        assert(s[pos] == ']');
        assert(sp_more_elems(s, pos, done, f) == sp_close_arr(s, pos, done));
        assert(done + rest =~= done);
    } else {
        let r0 = render_value(rest[0]);
        let tail = render_elems_rest(rest.drop_first());
        assert(rr == seq![','] + r0 + tail);
        assert forall|k: int| 0 <= k < rrl implies s[pos + k] == rr[k] by {
            assert(s.subrange(pos, pos + rrl)[k] == s[pos + k]);
        }
        assert((seq![','] + r0 + tail)[0] == ',');
        assert(s[pos + 0] == ',');
        assert(s[pos] == s[pos + 0]);
        crate::value::lemma_wf_elem_at(rest, 0);
        lemma_render_first(rest[0]);
        let vstart = pos + 1;
        assert forall|k: int| 0 <= k < r0.len() implies s[vstart + k] == r0[k] by {
            assert(s[pos + (1 + k)] == rr[1 + k]);
            assert(rr[1 + k] == r0[k]);
        }
        assert(s.subrange(vstart, vstart + r0.len() as int) =~= r0);
        assert(s[vstart] == r0[0]) by {
            assert(s[vstart + 0] == r0[0]);
        }
        crate::parser::lemma_skip_ws(s, pos + 1);
        assert(skip_ws(s, pos + 1) == vstart);
        let e0 = vstart + r0.len() as int;
        assert(s[e0] == (if tail.len() == 0 {
            ']'
        } else {
            ','
        })) by {
            if tail.len() == 0 {
                assert(e0 == pos + rrl);
            } else {
                assert(s[pos + (1 + r0.len() as int)] == rr[1 + r0.len() as int]);
                assert(rr[1 + r0.len() as int] == tail[0]);
                assert(tail[0] == ',');
            }
        }
        assert(num_boundary(s, e0));
        lemma_sp_value_render(s, pos + 1, vstart, rest[0], (f - 1) as nat);
        crate::parser::lemma_skip_ws(s, e0);
        assert(skip_ws(s, e0) == e0);
        assert(sp_value(s, pos + 1, (f - 1) as nat) == Ok::<_, (crate::parser::Expected, int)>((rest[0], e0)));
        assert(s.subrange(e0, e0 + tail.len() as int) =~= tail) by {
            assert forall|k: int|
                0 <= k < tail.len() implies s.subrange(e0, e0 + tail.len() as int)[k]
                == tail[k] by {
                assert(s[pos + (1 + r0.len() as int + k)] == rr[1 + r0.len() as int + k]);
                assert(rr[1 + r0.len() as int + k] == tail[k]);
            }
        }
        assert(s[e0 + tail.len()] == ']') by {
            assert(e0 + tail.len() == pos + rrl);
        }
        assert(wf_json(Json::Arr(rest.drop_first()))) by {
            assert(forall|q: int|
                0 <= q < rest.drop_first().len() ==> #[trigger] rest.drop_first()[q] == rest[q
                    + 1]);
        }
        lemma_sp_elems_render(s, e0, done.push(rest[0]), rest.drop_first(), (f - 1) as nat);
        assert(done.push(rest[0]) + rest.drop_first() =~= done + rest);
        assert(sp_more_elems(s, pos, done, f) == sp_more_elems(
            s,
            e0,
            done.push(rest[0]),
            (f - 1) as nat,
        ));
    }
}

/// Parsing the rendering of one `"key": value` entry recovers it.
#[verifier::rlimit(100)]
proof fn lemma_sp_pair_render(s: Seq<char>, i: int, m: (Seq<char>, Json), f: nat)
    requires
        wf_json(m.1),
        0 <= i,
        i + render_entry(m).len() <= s.len(),
        s.subrange(i, i + render_entry(m).len() as int) == render_entry(m),
        num_boundary(s, i + render_entry(m).len()),
        i + render_entry(m).len() == s.len() || !is_ws(s[i + render_entry(m).len()]),
        f >= 2 * (s.len() - i) + 1,
    ensures
        sp_pair(s, i, f) == Ok::<_, (crate::parser::Expected, int)>((m, i + render_entry(m).len() as int)),
    decreases m, 2int,
{
    let r = render_entry(m);
    let rl = r.len() as int;
    let ek = escape_str(m.0);
    let ekl = ek.len() as int;
    let rv = render_value(m.1);
    assert(r == seq!['"'] + ek + seq!['"', ':'] + rv);
    assert forall|k: int| 0 <= k < rl implies s[i + k] == r[k] by {
        assert(s.subrange(i, i + rl)[k] == s[i + k]);
    }
    assert((seq!['"'] + ek + seq!['"', ':'] + rv)[0] == '"');
    assert(r[0] == '"');
    assert(s[i + 0] == '"');
    assert(s[i] == s[i + 0]);
    assert(s.subrange(i + 1, i + 1 + ekl) =~= ek) by {
        assert forall|k: int| 0 <= k < ekl implies s.subrange(i + 1, i + 1 + ekl)[k] == ek[k] by {
            assert(s[i + (1 + k)] == r[1 + k]);
            assert(r[1 + k] == ek[k]);
        }
    }
    assert(s[i + (1 + ekl)] == r[1 + ekl]);
    assert(r[1 + ekl] == '"');
    lemma_sp_string_render(s, i + 1, m.0);
    let jk = i + 1 + ekl + 1;
    assert(sp_string(s, i + 1) == Ok::<_, (crate::parser::Expected, int)>((m.0, jk)));
    assert(s[i + (2 + ekl)] == r[2 + ekl]);
    assert(r[2 + ekl] == ':');
    assert(s[jk] == ':');
    crate::parser::lemma_skip_ws(s, jk);
    assert(skip_ws(s, jk) == jk);
    let vstart = jk + 1;
    assert forall|k: int| 0 <= k < rv.len() implies s[vstart + k] == rv[k] by {
        assert(s[i + (3 + ekl + k)] == r[3 + ekl + k]);
        assert(r[3 + ekl + k] == rv[k]);
    }
    assert(s.subrange(vstart, vstart + rv.len() as int) =~= rv);
    lemma_render_first(m.1);
    assert(s[vstart] == rv[0]) by {
        assert(s[vstart + 0] == rv[0]);
    }
    crate::parser::lemma_skip_ws(s, jk + 1);
    assert(skip_ws(s, jk + 1) == vstart);
    assert(vstart + rv.len() == i + rl);
    assert(num_boundary(s, vstart + rv.len() as int));
    lemma_sp_value_render(s, jk + 1, vstart, m.1, (f - 1) as nat);
    crate::parser::lemma_skip_ws(s, i + rl);
    assert(skip_ws(s, i + rl) == i + rl) by {
        if i + rl < s.len() {
            assert(!is_ws(s[i + rl]));
        }
    }
    assert(sp_value(s, jk + 1, (f - 1) as nat) == Ok::<_, (crate::parser::Expected, int)>((m.1, i + rl)));
    assert((m.0, m.1) == m);
}

/// After one parsed entry, parsing the rendered rest of the entry list
/// and the closing brace yields all the entries.
#[verifier::rlimit(100)]
proof fn lemma_sp_pairs_render(
    s: Seq<char>,
    pos: int,
    done: Seq<(Seq<char>, Json)>,
    rest: Seq<(Seq<char>, Json)>,
    f: nat,
)
    requires
        wf_json(Json::Obj(rest)),
        keys_unique(done + rest),
        0 <= pos,
        pos + render_entries_rest(rest).len() + 1 <= s.len(),
        s.subrange(pos, pos + render_entries_rest(rest).len() as int) == render_entries_rest(
            rest,
        ),
        s[pos + render_entries_rest(rest).len()] == '}',
        f >= 2 * (s.len() - pos) + 1,
    ensures
        sp_more_pairs(s, pos, done, f) == Ok::<_, (crate::parser::Expected, int)>(
            (Json::Obj(done + rest), pos + render_entries_rest(rest).len() + 1),
        ),
    decreases rest, 0int,
{
    let rr = render_entries_rest(rest);
    let rrl = rr.len() as int;
    if rest.len() == 0 {
        assert(rrl == 0);
        assert(s[pos] == '}');
        assert(sp_more_pairs(s, pos, done, f) == sp_close_obj(s, pos, done));
        assert(done + rest =~= done);
    } else {
        let r0 = render_entry(rest[0]);
        let tail = render_entries_rest(rest.drop_first());
        assert(rr == seq![','] + r0 + tail);
        assert forall|k: int| 0 <= k < rrl implies s[pos + k] == rr[k] by {
            assert(s.subrange(pos, pos + rrl)[k] == s[pos + k]);
        }
        assert((seq![','] + r0 + tail)[0] == ',');
        assert(s[pos + 0] == ',');
        assert(s[pos] == s[pos + 0]);
        crate::value::lemma_wf_entry_at(rest, 0);
        let pstart = pos + 1;
        assert forall|k: int| 0 <= k < r0.len() implies s[pstart + k] == r0[k] by {
            assert(s[pos + (1 + k)] == rr[1 + k]);
            assert(rr[1 + k] == r0[k]);
        }
        assert(s.subrange(pstart, pstart + r0.len() as int) =~= r0);
        assert(s[pstart] == r0[0]) by {
            assert(s[pstart + 0] == r0[0]);
        }
        assert(r0[0] == '"');
        crate::parser::lemma_skip_ws(s, pos + 1);
        assert(skip_ws(s, pos + 1) == pstart);
        let e0 = pstart + r0.len() as int;
        assert(s[e0] == (if tail.len() == 0 {
            '}'
        } else {
            ','
        })) by {
            if tail.len() == 0 {
                assert(e0 == pos + rrl);
            } else {
                assert(s[pos + (1 + r0.len() as int)] == rr[1 + r0.len() as int]);
                assert(rr[1 + r0.len() as int] == tail[0]);
                assert(tail[0] == ',');
            }
        }
        assert(num_boundary(s, e0));
        assert(!is_ws(s[e0]));
        lemma_sp_pair_render(s, pstart, rest[0], (f - 1) as nat);
        assert(sp_pair(s, pstart, (f - 1) as nat) == Ok::<_, (crate::parser::Expected, int)>((rest[0], e0)));
        // a fresh key appends
        assert(obj_set(done, rest[0].0, rest[0].1) =~= done.push(rest[0])) by {
            crate::object::lemma_find_key(done, rest[0].0);
            let fk = crate::object::find_key(done, rest[0].0);
            if fk >= 0 {
                assert((done + rest)[fk] == done[fk]);
                assert((done + rest)[done.len() as int] == rest[0]);
                assert(done[fk].0 != rest[0].0);
            }
        }
        assert(s.subrange(e0, e0 + tail.len() as int) =~= tail) by {
            assert forall|k: int|
                0 <= k < tail.len() implies s.subrange(e0, e0 + tail.len() as int)[k]
                == tail[k] by {
                assert(s[pos + (1 + r0.len() as int + k)] == rr[1 + r0.len() as int + k]);
                assert(rr[1 + r0.len() as int + k] == tail[k]);
            }
        }
        assert(s[e0 + tail.len()] == '}') by {
            assert(e0 + tail.len() == pos + rrl);
        }
        assert(wf_json(Json::Obj(rest.drop_first()))) by {
            assert(forall|q: int|
                0 <= q < rest.drop_first().len() ==> #[trigger] rest.drop_first()[q] == rest[q
                    + 1]);
        }
        assert(keys_unique(done.push(rest[0]) + rest.drop_first())) by {
            assert(done.push(rest[0]) + rest.drop_first() =~= done + rest);
        }
        lemma_sp_pairs_render(s, e0, done.push(rest[0]), rest.drop_first(), (f - 1) as nat);
        assert(done.push(rest[0]) + rest.drop_first() =~= done + rest);
        assert(sp_more_pairs(s, pos, done, f) == sp_more_pairs(
            s,
            e0,
            done.push(rest[0]),
            (f - 1) as nat,
        ));
    }
}

/// Parsing the compact rendering of any well-formed value yields exactly
/// that value, consuming the whole text: the formatter and the parser
/// are inverse on structure.
pub proof fn lemma_parse_of_rendered(j: Json)
    requires
        wf_json(j),
    ensures
        sp_doc(render_value(j)) == Ok::<_, (crate::parser::Expected, int)>((j, render_value(j).len() as int)),
{
    let s = render_value(j);
    assert(s.subrange(0, s.len() as int) =~= s);
    lemma_render_first(j);
    crate::parser::lemma_skip_ws(s, 0);
    assert(skip_ws(s, 0) == 0);
    lemma_sp_value_render(s, 0, 0, j, crate::parser::fuel_at(s, 0));
    crate::parser::lemma_skip_ws(s, s.len() as int);
}

/// Round trip through the document model: a native value wrapped into a
/// value casts back to exactly itself.
pub proof fn lemma_round_trip_i64(x: i64, t: i64)
    ensures
        <i64 as FromJson>::cast_ok(x.to_json_spec()),
        <i64 as FromJson>::cast_rel(x.to_json_spec(), t) <==> t == x,
{
    crate::number::lemma_num_of_int_val(x as int);
}

/// Round trip for strings: the wrapped string casts back to its own
/// characters.
pub proof fn lemma_round_trip_string(x: String, t: String)
    ensures
        <String as FromJson>::cast_ok(x.to_json_spec()),
        <String as FromJson>::cast_rel(x.to_json_spec(), t) <==> t@ == x@,
{
}

/// Round trip for booleans.
pub proof fn lemma_round_trip_bool(x: bool, t: bool)
    ensures
        <bool as FromJson>::cast_ok(x.to_json_spec()),
        <bool as FromJson>::cast_rel(x.to_json_spec(), t) <==> t == x,
{
}

/// Round trip for a homogeneous list of integers: the wrapped list casts
/// back to a list with exactly the same elements.
pub proof fn lemma_round_trip_vec_i64(x: Vec<i64>, t: Vec<i64>)
    ensures
        <Vec<i64> as FromJson>::cast_ok(x.to_json_spec()),
        <Vec<i64> as FromJson>::cast_rel(x.to_json_spec(), t) <==> t@ == x@,
{
    let js = x.to_json_spec();
    let elems = Seq::new(x@.len(), |i: int| x@[i].to_json_spec());
    assert(js == Json::Arr(elems));
    assert forall|i: int| 0 <= i < elems.len() implies <i64 as FromJson>::cast_ok(
        #[trigger] elems[i],
    ) by {
        lemma_round_trip_i64(x@[i], 0);
        assert(elems[i] == x@[i].to_json_spec());
    }
    if <Vec<i64> as FromJson>::cast_rel(js, t) {
        assert forall|i: int| 0 <= i < x@.len() implies t@[i] == x@[i] by {
            assert(<i64 as FromJson>::cast_rel(elems[i], t@[i]));
            lemma_round_trip_i64(x@[i], t@[i]);
        }
        assert(t@ =~= x@);
    }
    if t@ == x@ {
        assert forall|i: int| 0 <= i < elems.len() implies <i64 as FromJson>::cast_rel(
            #[trigger] elems[i],
            t@[i],
        ) by {
            lemma_round_trip_i64(x@[i], t@[i]);
        }
    }
}

/// Null coerces to each target's empty value: `false`, zero, the empty
/// list, the empty object.
pub proof fn lemma_null_coercions(tb: bool, ti: i64, tu: u8, tv: Vec<i64>, to: crate::value::JsonObject)
    ensures
        <bool as FromJson>::cast_ok(Json::Null),
        <bool as FromJson>::cast_rel(Json::Null, tb) <==> tb == false,
        <i64 as FromJson>::cast_ok(Json::Null),
        <i64 as FromJson>::cast_rel(Json::Null, ti) <==> ti == 0,
        <u8 as FromJson>::cast_ok(Json::Null),
        <u8 as FromJson>::cast_rel(Json::Null, tu) <==> tu == 0,
        <Vec<i64> as FromJson>::cast_ok(Json::Null),
        <Vec<i64> as FromJson>::cast_rel(Json::Null, tv) <==> tv@.len() == 0,
        <crate::value::JsonObject as FromJson>::cast_ok(Json::Null),
        <crate::value::JsonObject as FromJson>::cast_rel(Json::Null, to) <==> to@.len() == 0,
{
}

/// Skipping whitespace over a known whitespace run lands at its end.
proof fn lemma_skip_run(s: Seq<char>, a: int, b: int)
    requires
        0 <= a <= b <= s.len(),
        forall|k: int| a <= k < b ==> is_ws(#[trigger] s[k]),
        b == s.len() || !is_ws(s[b]),
    ensures
        skip_ws(s, a) == b,
    decreases b - a,
{
    if a < b {
        lemma_skip_run(s, a + 1, b);
    }
}

/// A pretty rendering is never empty and starts with a significant
/// character — the same first character as the compact rendering.
proof fn lemma_pretty_first(j: Json, width: int, ch: char, cur: int, child: bool)
    requires
        wf_json(j),
    ensures
        pretty_value(j, width, ch, cur, child).len() >= 1,
        !is_ws(pretty_value(j, width, ch, cur, child)[0]),
    decreases j,
{
    let r = pretty_value(j, width, ch, cur, child);
    match j {
        Json::Str(_) => {
            assert(r == render_value(j));
            lemma_render_first(j);
        },
        Json::Num(_) => {
            assert(r == render_value(j));
            lemma_render_first(j);
        },
        Json::Bool(_) => {
            assert(r == render_value(j));
            lemma_render_first(j);
        },
        Json::Null => {
            assert(r == render_value(j));
            lemma_render_first(j);
        },
        Json::Arr(_) => {
            assert(r[0] == '[');
        },
        Json::Obj(_) => {
            assert(r[0] == '{');
        },
    }
}

/// Parsing at `i`, where whitespace leads to `start` and the pretty
/// rendering of a well-formed value sits at `start` with nothing
/// number-like after it, recovers exactly that value.  The indentation
/// character must be whitespace, else the output does not parse.
#[verifier::rlimit(100)]
proof fn lemma_sp_value_pretty(
    s: Seq<char>,
    i: int,
    start: int,
    j: Json,
    width: int,
    ch: char,
    cur: int,
    child: bool,
    f: nat,
)
    requires
        wf_json(j),
        is_ws(ch),
        0 <= width,
        0 <= cur,
        0 <= i <= start,
        skip_ws(s, i) == start,
        start + pretty_value(j, width, ch, cur, child).len() <= s.len(),
        s.subrange(start, start + pretty_value(j, width, ch, cur, child).len() as int)
            == pretty_value(j, width, ch, cur, child),
        num_boundary(s, start + pretty_value(j, width, ch, cur, child).len()),
        f >= 2 * (s.len() - i) + 2,
    ensures
        sp_value(s, i, f) == Ok::<_, (crate::parser::Expected, int)>(
            (j, skip_ws(s, start + pretty_value(j, width, ch, cur, child).len() as int)),
        ),
    decreases j, 1int,
{
    let r = pretty_value(j, width, ch, cur, child);
    let rl = r.len() as int;
    let e = start + rl;
    lemma_pretty_first(j, width, ch, cur, child);
    lemma_char_at(s, start, r, 0);
    crate::parser::lemma_skip_ws(s, i);
    assert(start < s.len());
    let c = s[start];
    assert(c == r[0]);
    match j {
        Json::Str(cs) => {
            assert(r == render_value(j));
            lemma_sp_value_render(s, i, start, j, f);
        },
        Json::Num(n) => {
            assert(r == render_value(j));
            lemma_sp_value_render(s, i, start, j, f);
        },
        Json::Bool(b) => {
            assert(r == render_value(j));
            lemma_sp_value_render(s, i, start, j, f);
        },
        Json::Null => {
            assert(r == render_value(j));
            lemma_sp_value_render(s, i, start, j, f);
        },
        Json::Arr(ch_elems) => {
            lemma_sp_value_pretty_arr(s, i, start, ch_elems, width, ch, cur, child, f);
        },
        Json::Obj(ms) => {
            lemma_sp_value_pretty_obj(s, i, start, ms, width, ch, cur, child, f);
        },
    }
}

/// The array case of [`lemma_sp_value_pretty`].
#[verifier::rlimit(100)]
proof fn lemma_sp_value_pretty_arr(
    s: Seq<char>,
    i: int,
    start: int,
    ch_elems: Seq<Json>,
    width: int,
    ch: char,
    cur: int,
    child: bool,
    f: nat,
)
    requires
        wf_json(Json::Arr(ch_elems)),
        is_ws(ch),
        0 <= width,
        0 <= cur,
        0 <= i <= start,
        skip_ws(s, i) == start,
        start + pretty_value(Json::Arr(ch_elems), width, ch, cur, child).len() <= s.len(),
        s.subrange(
            start,
            start + pretty_value(Json::Arr(ch_elems), width, ch, cur, child).len() as int,
        ) == pretty_value(Json::Arr(ch_elems), width, ch, cur, child),
        num_boundary(s, start + pretty_value(Json::Arr(ch_elems), width, ch, cur, child).len()),
        f >= 2 * (s.len() - i) + 2,
    ensures
        sp_value(s, i, f) == Ok::<_, (crate::parser::Expected, int)>(
            (
                Json::Arr(ch_elems),
                skip_ws(
                    s,
                    start + pretty_value(Json::Arr(ch_elems), width, ch, cur, child).len() as int,
                ),
            ),
        ),
    decreases ch_elems, 3int,
{
    if ch_elems.len() == 0 {
        lemma_sp_value_pretty_arr_empty(s, i, start, ch_elems, width, ch, cur, child, f);
    } else {
        lemma_sp_value_pretty_arr_ne(s, i, start, ch_elems, width, ch, cur, child, f);
    }
}

#[verifier::rlimit(100)]
proof fn lemma_sp_value_pretty_arr_empty(
    s: Seq<char>,
    i: int,
    start: int,
    ch_elems: Seq<Json>,
    width: int,
    ch: char,
    cur: int,
    child: bool,
    f: nat,
)
    requires
        ch_elems.len() == 0,
        wf_json(Json::Arr(ch_elems)),
        is_ws(ch),
        0 <= width,
        0 <= cur,
        0 <= i <= start,
        skip_ws(s, i) == start,
        start + pretty_value(Json::Arr(ch_elems), width, ch, cur, child).len() <= s.len(),
        s.subrange(
            start,
            start + pretty_value(Json::Arr(ch_elems), width, ch, cur, child).len() as int,
        ) == pretty_value(Json::Arr(ch_elems), width, ch, cur, child),
        num_boundary(s, start + pretty_value(Json::Arr(ch_elems), width, ch, cur, child).len()),
        f >= 2 * (s.len() - i) + 2,
    ensures
        sp_value(s, i, f) == Ok::<_, (crate::parser::Expected, int)>(
            (
                Json::Arr(ch_elems),
                skip_ws(
                    s,
                    start + pretty_value(Json::Arr(ch_elems), width, ch, cur, child).len() as int,
                ),
            ),
        ),
    decreases ch_elems, 2int,
{

    let j = Json::Arr(ch_elems);
    let r = pretty_value(j, width, ch, cur, child);
    let rl = r.len() as int;
    let e = start + rl;
    lemma_pretty_first(j, width, ch, cur, child);
    lemma_char_at(s, start, r, 0);
    crate::parser::lemma_skip_ws(s, i);
    assert(start < s.len());
    let c = s[start];
    assert(c == r[0]);

    let pe = pretty_elems(ch_elems, width, ch, cur);
    let pel = pe.len() as int;
    let ci: Seq<char> = if child {
        indent_chars(ch, cur - width)
    } else {
        Seq::<char>::empty()
    };
    let cil = ci.len() as int;
    assert(r == seq!['[', '\n'] + pe + seq!['\n'] + ci + seq![']']);
    assert(c == '[');
    let close = start + 2 + pel + 1 + cil;
    assert(close == e - 1);
    assert forall|k: int| 0 <= k < pel implies s[start + 2 + k] == pe[k] by {
        lemma_char_at(s, start, r, 2 + k);
        assert(r[2 + k] == pe[k]);
    }
    lemma_char_at(s, start, r, rl - 1);
    assert(r[rl - 1] == ']');
    assert(s[close] == ']');
    assert(!is_ws(']'));
    lemma_char_at(s, start, r, 1);
    assert(r[1] == '\n');
    assert forall|k: int| 0 <= k < cil implies #[trigger] s[start + 2 + pel + 1 + k]
        == ch by {
        lemma_char_at(s, start, r, 2 + pel + 1 + k);
        assert(r[2 + pel + 1 + k] == ci[k]);
        assert(ci[k] == ch);
    }
    lemma_char_at(s, start, r, 2 + pel);
    assert(r[2 + pel] == '\n');

        assert(pel == 0);
        assert forall|k: int| start + 1 <= k < close implies is_ws(#[trigger] s[k]) by {
            if k == start + 1 {
                assert(s[k] == '\n');
            } else if k == start + 2 {
                assert(s[k] == '\n');
            } else {
                assert(s[start + 2 + pel + 1 + (k - start - 3)] == ch);
                assert(s[k] == ch);
            }
        }
        lemma_skip_run(s, start + 1, close);
        assert(sp_value(s, start + 1, (f - 2) as nat) == Err::<(Json, int), _>(
            (crate::parser::Expected::Value, close),
        ));
        assert(sp_array(s, start + 1, (f - 1) as nat) == Ok::<
            _,
            (crate::parser::Expected, int),
        >((Json::Arr(Seq::empty()), close + 1)));
        assert(Json::Arr(ch_elems) == Json::Arr(Seq::<Json>::empty())) by {
            assert(ch_elems =~= Seq::<Json>::empty());
        }
        assert(sp_value(s, i, f) == Ok::<_, (crate::parser::Expected, int)>(
            (Json::Arr(ch_elems), skip_ws(s, e)),
        ));
    
}

#[verifier::rlimit(100)]
proof fn lemma_sp_value_pretty_arr_ne(
    s: Seq<char>,
    i: int,
    start: int,
    ch_elems: Seq<Json>,
    width: int,
    ch: char,
    cur: int,
    child: bool,
    f: nat,
)
    requires
        ch_elems.len() > 0,
        wf_json(Json::Arr(ch_elems)),
        is_ws(ch),
        0 <= width,
        0 <= cur,
        0 <= i <= start,
        skip_ws(s, i) == start,
        start + pretty_value(Json::Arr(ch_elems), width, ch, cur, child).len() <= s.len(),
        s.subrange(
            start,
            start + pretty_value(Json::Arr(ch_elems), width, ch, cur, child).len() as int,
        ) == pretty_value(Json::Arr(ch_elems), width, ch, cur, child),
        num_boundary(s, start + pretty_value(Json::Arr(ch_elems), width, ch, cur, child).len()),
        f >= 2 * (s.len() - i) + 2,
    ensures
        sp_value(s, i, f) == Ok::<_, (crate::parser::Expected, int)>(
            (
                Json::Arr(ch_elems),
                skip_ws(
                    s,
                    start + pretty_value(Json::Arr(ch_elems), width, ch, cur, child).len() as int,
                ),
            ),
        ),
    decreases ch_elems, 2int,
{

    let j = Json::Arr(ch_elems);
    let r = pretty_value(j, width, ch, cur, child);
    let rl = r.len() as int;
    let e = start + rl;
    lemma_pretty_first(j, width, ch, cur, child);
    lemma_char_at(s, start, r, 0);
    crate::parser::lemma_skip_ws(s, i);
    assert(start < s.len());
    let c = s[start];
    assert(c == r[0]);

    let pe = pretty_elems(ch_elems, width, ch, cur);
    let pel = pe.len() as int;
    let ci: Seq<char> = if child {
        indent_chars(ch, cur - width)
    } else {
        Seq::<char>::empty()
    };
    let cil = ci.len() as int;
    assert(r == seq!['[', '\n'] + pe + seq!['\n'] + ci + seq![']']);
    assert(c == '[');
    let close = start + 2 + pel + 1 + cil;
    assert(close == e - 1);
    assert forall|k: int| 0 <= k < pel implies s[start + 2 + k] == pe[k] by {
        lemma_char_at(s, start, r, 2 + k);
        assert(r[2 + k] == pe[k]);
    }
    lemma_char_at(s, start, r, rl - 1);
    assert(r[rl - 1] == ']');
    assert(s[close] == ']');
    assert(!is_ws(']'));
    lemma_char_at(s, start, r, 1);
    assert(r[1] == '\n');
    assert forall|k: int| 0 <= k < cil implies #[trigger] s[start + 2 + pel + 1 + k]
        == ch by {
        lemma_char_at(s, start, r, 2 + pel + 1 + k);
        assert(r[2 + pel + 1 + k] == ci[k]);
        assert(ci[k] == ch);
    }
    lemma_char_at(s, start, r, 2 + pel);
    assert(r[2 + pel] == '\n');

        let deeper = sat_add_usize(cur, width);
        let pv0 = pretty_value(ch_elems[0], width, ch, deeper, true);
        let pv0l = pv0.len() as int;
        let tailp: Seq<char> = if ch_elems.len() == 1 {
            Seq::<char>::empty()
        } else {
            seq![',', '\n'] + pretty_elems(ch_elems.drop_first(), width, ch, cur)
        };
        assert(pe == indent_chars(ch, cur) + pv0 + tailp);
        crate::value::lemma_wf_elem_at(ch_elems, 0);
        lemma_pretty_first(ch_elems[0], width, ch, deeper, true);
        let vstart = start + 2 + cur;
        assert forall|k: int| 0 <= k < pv0l implies s[vstart + k] == pv0[k] by {
            assert(s[start + 2 + (cur + k)] == pe[cur + k]);
            assert(pe[cur + k] == pv0[k]);
        }
        assert(s.subrange(vstart, vstart + pv0l) =~= pv0);
        assert(s[vstart] == pv0[0]) by {
            assert(s[vstart + 0] == pv0[0]);
        }
        assert forall|k: int| start + 1 <= k < vstart implies is_ws(#[trigger] s[k]) by {
            if k == start + 1 {
                assert(s[k] == '\n');
            } else {
                assert(s[start + 2 + (k - start - 2)] == pe[k - start - 2]);
                assert(pe[k - start - 2] == indent_chars(ch, cur)[k - start - 2]);
                assert(s[k] == ch);
            }
        }
        lemma_skip_run(s, start + 1, vstart);
        let e0 = vstart + pv0l;
        if ch_elems.len() == 1 {
            assert(e0 == start + 2 + pel);
            assert(s[e0] == '\n');
            assert(num_boundary(s, e0));
            lemma_sp_value_pretty(
                s,
                start + 1,
                vstart,
                ch_elems[0],
                width,
                ch,
                deeper,
                true,
                (f - 2) as nat,
            );
            assert forall|k: int| e0 <= k < close implies is_ws(#[trigger] s[k]) by {
                if k == e0 {
                    assert(s[k] == '\n');
                } else {
                    assert(s[start + 2 + pel + 1 + (k - e0 - 1)] == ch);
                }
            }
            lemma_skip_run(s, e0, close);
            assert(sp_value(s, start + 1, (f - 2) as nat) == Ok::<
                _,
                (crate::parser::Expected, int),
            >((ch_elems[0], close)));
            lemma_sp_pretty_elems(
                s,
                close,
                seq![ch_elems[0]],
                ch_elems.drop_first(),
                width,
                ch,
                cur,
                close,
                (f - 2) as nat,
            );
            assert(seq![ch_elems[0]] + ch_elems.drop_first() =~= ch_elems);
        } else {
            assert(s[e0] == ',') by {
                assert(s[start + 2 + (cur + pv0l)] == pe[cur + pv0l]);
                assert(pe[cur + pv0l] == tailp[0]);
                assert(tailp[0] == ',');
            }
            assert(num_boundary(s, e0));
            lemma_sp_value_pretty(
                s,
                start + 1,
                vstart,
                ch_elems[0],
                width,
                ch,
                deeper,
                true,
                (f - 2) as nat,
            );
            crate::parser::lemma_skip_ws(s, e0);
            assert(skip_ws(s, e0) == e0);
            assert(sp_value(s, start + 1, (f - 2) as nat) == Ok::<
                _,
                (crate::parser::Expected, int),
            >((ch_elems[0], e0)));
            let pe2 = pretty_elems(ch_elems.drop_first(), width, ch, cur);
            assert(s[e0 + 1] == '\n') by {
                assert(s[start + 2 + (cur + pv0l + 1)] == pe[cur + pv0l + 1]);
                assert(pe[cur + pv0l + 1] == tailp[1]);
                assert(tailp[1] == '\n');
            }
            assert(s.subrange(e0 + 2, e0 + 2 + pe2.len() as int) =~= pe2) by {
                assert forall|k: int|
                    0 <= k < pe2.len() implies s.subrange(
                    e0 + 2,
                    e0 + 2 + pe2.len() as int,
                )[k] == pe2[k] by {
                    assert(s[start + 2 + (cur + pv0l + 2 + k)] == pe[cur + pv0l + 2 + k]);
                    assert(pe[cur + pv0l + 2 + k] == tailp[2 + k]);
                    assert(tailp[2 + k] == pe2[k]);
                }
            }
            assert(e0 + 2 + pe2.len() == start + 2 + pel);
            assert forall|k: int|
                e0 + 2 + pe2.len() <= k < close implies is_ws(#[trigger] s[k]) by {
                if k == start + 2 + pel {
                    assert(s[k] == '\n');
                } else {
                    assert(s[start + 2 + pel + 1 + (k - (start + 2 + pel) - 1)] == ch);
                }
            }
            assert(wf_json(Json::Arr(ch_elems.drop_first()))) by {
                assert(forall|q: int|
                    0 <= q < ch_elems.drop_first().len()
                        ==> #[trigger] ch_elems.drop_first()[q] == ch_elems[q + 1]);
            }
            lemma_sp_pretty_elems(
                s,
                e0,
                seq![ch_elems[0]],
                ch_elems.drop_first(),
                width,
                ch,
                cur,
                close,
                (f - 2) as nat,
            );
            assert(seq![ch_elems[0]] + ch_elems.drop_first() =~= ch_elems);
        }
        assert(sp_array(s, start + 1, (f - 1) as nat) == Ok::<
            _,
            (crate::parser::Expected, int),
        >((Json::Arr(ch_elems), close + 1)));
        assert(sp_value(s, i, f) == Ok::<_, (crate::parser::Expected, int)>(
            (Json::Arr(ch_elems), skip_ws(s, e)),
        ));
    
}


/// The object case of [`lemma_sp_value_pretty`].
#[verifier::rlimit(100)]
proof fn lemma_sp_value_pretty_obj(
    s: Seq<char>,
    i: int,
    start: int,
    ms: Seq<(Seq<char>, Json)>,
    width: int,
    ch: char,
    cur: int,
    child: bool,
    f: nat,
)
    requires
        wf_json(Json::Obj(ms)),
        is_ws(ch),
        0 <= width,
        0 <= cur,
        0 <= i <= start,
        skip_ws(s, i) == start,
        start + pretty_value(Json::Obj(ms), width, ch, cur, child).len() <= s.len(),
        s.subrange(
            start,
            start + pretty_value(Json::Obj(ms), width, ch, cur, child).len() as int,
        ) == pretty_value(Json::Obj(ms), width, ch, cur, child),
        num_boundary(s, start + pretty_value(Json::Obj(ms), width, ch, cur, child).len()),
        f >= 2 * (s.len() - i) + 2,
    ensures
        sp_value(s, i, f) == Ok::<_, (crate::parser::Expected, int)>(
            (
                Json::Obj(ms),
                skip_ws(
                    s,
                    start + pretty_value(Json::Obj(ms), width, ch, cur, child).len() as int,
                ),
            ),
        ),
    decreases ms, 3int,
{
    if ms.len() == 0 {
        lemma_sp_value_pretty_obj_empty(s, i, start, ms, width, ch, cur, child, f);
    } else {
        lemma_sp_value_pretty_obj_ne(s, i, start, ms, width, ch, cur, child, f);
    }
}

#[verifier::rlimit(100)]
proof fn lemma_sp_value_pretty_obj_empty(
    s: Seq<char>,
    i: int,
    start: int,
    ms: Seq<(Seq<char>, Json)>,
    width: int,
    ch: char,
    cur: int,
    child: bool,
    f: nat,
)
    requires
        ms.len() == 0,
        wf_json(Json::Obj(ms)),
        is_ws(ch),
        0 <= width,
        0 <= cur,
        0 <= i <= start,
        skip_ws(s, i) == start,
        start + pretty_value(Json::Obj(ms), width, ch, cur, child).len() <= s.len(),
        s.subrange(
            start,
            start + pretty_value(Json::Obj(ms), width, ch, cur, child).len() as int,
        ) == pretty_value(Json::Obj(ms), width, ch, cur, child),
        num_boundary(s, start + pretty_value(Json::Obj(ms), width, ch, cur, child).len()),
        f >= 2 * (s.len() - i) + 2,
    ensures
        sp_value(s, i, f) == Ok::<_, (crate::parser::Expected, int)>(
            (
                Json::Obj(ms),
                skip_ws(
                    s,
                    start + pretty_value(Json::Obj(ms), width, ch, cur, child).len() as int,
                ),
            ),
        ),
    decreases ms, 2int,
{

    let j = Json::Obj(ms);
    let r = pretty_value(j, width, ch, cur, child);
    let rl = r.len() as int;
    let e = start + rl;
    lemma_pretty_first(j, width, ch, cur, child);
    lemma_char_at(s, start, r, 0);
    crate::parser::lemma_skip_ws(s, i);
    assert(start < s.len());
    let c = s[start];
    assert(c == r[0]);

    let pe = pretty_entries(ms, width, ch, cur);
    let pel = pe.len() as int;
    let ci: Seq<char> = if child {
        indent_chars(ch, cur - width)
    } else {
        Seq::<char>::empty()
    };
    let cil = ci.len() as int;
    assert(r == seq!['{', '\n'] + pe + seq!['\n'] + ci + seq!['}']);
    assert(c == '{');
    let close = start + 2 + pel + 1 + cil;
    assert(close == e - 1);
    assert forall|k: int| 0 <= k < pel implies s[start + 2 + k] == pe[k] by {
        lemma_char_at(s, start, r, 2 + k);
        assert(r[2 + k] == pe[k]);
    }
    lemma_char_at(s, start, r, rl - 1);
    assert(r[rl - 1] == '}');
    assert(s[close] == '}');
    assert(!is_ws('}'));
    lemma_char_at(s, start, r, 1);
    assert(r[1] == '\n');
    assert forall|k: int| 0 <= k < cil implies #[trigger] s[start + 2 + pel + 1 + k]
        == ch by {
        lemma_char_at(s, start, r, 2 + pel + 1 + k);
        assert(r[2 + pel + 1 + k] == ci[k]);
        assert(ci[k] == ch);
    }
    lemma_char_at(s, start, r, 2 + pel);
    assert(r[2 + pel] == '\n');

        assert(pel == 0);
        assert forall|k: int| start + 1 <= k < close implies is_ws(#[trigger] s[k]) by {
            if k == start + 1 {
                assert(s[k] == '\n');
            } else if k == start + 2 {
                assert(s[k] == '\n');
            } else {
                assert(s[start + 2 + pel + 1 + (k - start - 3)] == ch);
                assert(s[k] == ch);
            }
        }
        lemma_skip_run(s, start + 1, close);
        assert(sp_pair(s, close, (f - 2) as nat) == Err::<((Seq<char>, Json), int), _>(
            (crate::parser::Expected::Key, close),
        ));
        assert(sp_object(s, start + 1, (f - 1) as nat) == Ok::<
            _,
            (crate::parser::Expected, int),
        >((Json::Obj(Seq::empty()), close + 1)));
        assert(Json::Obj(ms) == Json::Obj(Seq::<(Seq<char>, Json)>::empty())) by {
            assert(ms =~= Seq::<(Seq<char>, Json)>::empty());
        }
        assert(sp_value(s, i, f) == Ok::<_, (crate::parser::Expected, int)>(
            (Json::Obj(ms), skip_ws(s, e)),
        ));
    
}

#[verifier::rlimit(100)]
proof fn lemma_sp_value_pretty_obj_ne(
    s: Seq<char>,
    i: int,
    start: int,
    ms: Seq<(Seq<char>, Json)>,
    width: int,
    ch: char,
    cur: int,
    child: bool,
    f: nat,
)
    requires
        ms.len() > 0,
        wf_json(Json::Obj(ms)),
        is_ws(ch),
        0 <= width,
        0 <= cur,
        0 <= i <= start,
        skip_ws(s, i) == start,
        start + pretty_value(Json::Obj(ms), width, ch, cur, child).len() <= s.len(),
        s.subrange(
            start,
            start + pretty_value(Json::Obj(ms), width, ch, cur, child).len() as int,
        ) == pretty_value(Json::Obj(ms), width, ch, cur, child),
        num_boundary(s, start + pretty_value(Json::Obj(ms), width, ch, cur, child).len()),
        f >= 2 * (s.len() - i) + 2,
    ensures
        sp_value(s, i, f) == Ok::<_, (crate::parser::Expected, int)>(
            (
                Json::Obj(ms),
                skip_ws(
                    s,
                    start + pretty_value(Json::Obj(ms), width, ch, cur, child).len() as int,
                ),
            ),
        ),
    decreases ms, 2int,
{

    let j = Json::Obj(ms);
    let r = pretty_value(j, width, ch, cur, child);
    let rl = r.len() as int;
    let e = start + rl;
    lemma_pretty_first(j, width, ch, cur, child);
    lemma_char_at(s, start, r, 0);
    crate::parser::lemma_skip_ws(s, i);
    assert(start < s.len());
    let c = s[start];
    assert(c == r[0]);

    let pe = pretty_entries(ms, width, ch, cur);
    let pel = pe.len() as int;
    let ci: Seq<char> = if child {
        indent_chars(ch, cur - width)
    } else {
        Seq::<char>::empty()
    };
    let cil = ci.len() as int;
    assert(r == seq!['{', '\n'] + pe + seq!['\n'] + ci + seq!['}']);
    assert(c == '{');
    let close = start + 2 + pel + 1 + cil;
    assert(close == e - 1);
    assert forall|k: int| 0 <= k < pel implies s[start + 2 + k] == pe[k] by {
        lemma_char_at(s, start, r, 2 + k);
        assert(r[2 + k] == pe[k]);
    }
    lemma_char_at(s, start, r, rl - 1);
    assert(r[rl - 1] == '}');
    assert(s[close] == '}');
    assert(!is_ws('}'));
    lemma_char_at(s, start, r, 1);
    assert(r[1] == '\n');
    assert forall|k: int| 0 <= k < cil implies #[trigger] s[start + 2 + pel + 1 + k]
        == ch by {
        lemma_char_at(s, start, r, 2 + pel + 1 + k);
        assert(r[2 + pel + 1 + k] == ci[k]);
        assert(ci[k] == ch);
    }
    lemma_char_at(s, start, r, 2 + pel);
    assert(r[2 + pel] == '\n');

        let deeper = sat_add_usize(cur, width);
        let r0 = seq!['"'] + escape_str(ms[0].0) + seq!['"', ':', ' '] + pretty_value(
            ms[0].1,
            width,
            ch,
            deeper,
            true,
        );
        let r0l = r0.len() as int;
        let tailp: Seq<char> = if ms.len() == 1 {
            Seq::<char>::empty()
        } else {
            seq![',', '\n'] + pretty_entries(ms.drop_first(), width, ch, cur)
        };
        assert(pe == indent_chars(ch, cur) + r0 + tailp);
        crate::value::lemma_wf_entry_at(ms, 0);
        let kstart = start + 2 + cur;
        assert forall|k: int| 0 <= k < r0l implies s[kstart + k] == r0[k] by {
            assert(s[start + 2 + (cur + k)] == pe[cur + k]);
            assert(pe[cur + k] == r0[k]);
        }
        assert(s.subrange(kstart, kstart + r0l) =~= r0);
        assert(s[kstart] == r0[0]) by {
            assert(s[kstart + 0] == r0[0]);
        }
        assert(r0[0] == '"');
        assert forall|k: int| start + 1 <= k < kstart implies is_ws(#[trigger] s[k]) by {
            if k == start + 1 {
                assert(s[k] == '\n');
            } else {
                assert(s[start + 2 + (k - start - 2)] == pe[k - start - 2]);
                assert(pe[k - start - 2] == indent_chars(ch, cur)[k - start - 2]);
                assert(s[k] == ch);
            }
        }
        lemma_skip_run(s, start + 1, kstart);
        let e0 = kstart + r0l;
        if ms.len() == 1 {
            assert(e0 == start + 2 + pel);
            assert(s[e0] == '\n');
            assert(num_boundary(s, e0));
            assert forall|k: int| e0 <= k < close implies is_ws(#[trigger] s[k]) by {
                if k == e0 {
                    assert(s[k] == '\n');
                } else {
                    assert(s[start + 2 + pel + 1 + (k - e0 - 1)] == ch);
                }
            }
            lemma_skip_run(s, e0, close);
            lemma_sp_pretty_pair(s, kstart, ms[0], width, ch, cur, (f - 2) as nat);
            assert(sp_pair(s, kstart, (f - 2) as nat) == Ok::<
                _,
                (crate::parser::Expected, int),
            >((ms[0], close)));
            assert(obj_set(Seq::empty(), ms[0].0, ms[0].1) =~= seq![ms[0]]);
            lemma_sp_pretty_pairs(
                s,
                close,
                seq![ms[0]],
                ms.drop_first(),
                width,
                ch,
                cur,
                close,
                (f - 2) as nat,
            );
            assert(seq![ms[0]] + ms.drop_first() =~= ms);
        } else {
            assert(s[e0] == ',') by {
                assert(s[start + 2 + (cur + r0l)] == pe[cur + r0l]);
                assert(pe[cur + r0l] == tailp[0]);
                assert(tailp[0] == ',');
            }
            assert(num_boundary(s, e0));
            crate::parser::lemma_skip_ws(s, e0);
            assert(skip_ws(s, e0) == e0);
            lemma_sp_pretty_pair(s, kstart, ms[0], width, ch, cur, (f - 2) as nat);
            assert(sp_pair(s, kstart, (f - 2) as nat) == Ok::<
                _,
                (crate::parser::Expected, int),
            >((ms[0], e0)));
            let pe2 = pretty_entries(ms.drop_first(), width, ch, cur);
            assert(s[e0 + 1] == '\n') by {
                assert(s[start + 2 + (cur + r0l + 1)] == pe[cur + r0l + 1]);
                assert(pe[cur + r0l + 1] == tailp[1]);
                assert(tailp[1] == '\n');
            }
            assert(s.subrange(e0 + 2, e0 + 2 + pe2.len() as int) =~= pe2) by {
                assert forall|k: int|
                    0 <= k < pe2.len() implies s.subrange(
                    e0 + 2,
                    e0 + 2 + pe2.len() as int,
                )[k] == pe2[k] by {
                    assert(s[start + 2 + (cur + r0l + 2 + k)] == pe[cur + r0l + 2 + k]);
                    assert(pe[cur + r0l + 2 + k] == tailp[2 + k]);
                    assert(tailp[2 + k] == pe2[k]);
                }
            }
            assert(e0 + 2 + pe2.len() == start + 2 + pel);
            assert forall|k: int|
                e0 + 2 + pe2.len() <= k < close implies is_ws(#[trigger] s[k]) by {
                if k == start + 2 + pel {
                    assert(s[k] == '\n');
                } else {
                    assert(s[start + 2 + pel + 1 + (k - (start + 2 + pel) - 1)] == ch);
                }
            }
            assert(wf_json(Json::Obj(ms.drop_first()))) by {
                assert(forall|q: int|
                    0 <= q < ms.drop_first().len() ==> #[trigger] ms.drop_first()[q]
                        == ms[q + 1]);
            }
            assert(obj_set(Seq::empty(), ms[0].0, ms[0].1) =~= seq![ms[0]]);
            lemma_sp_pretty_pairs(
                s,
                e0,
                seq![ms[0]],
                ms.drop_first(),
                width,
                ch,
                cur,
                close,
                (f - 2) as nat,
            );
            assert(seq![ms[0]] + ms.drop_first() =~= ms);
        }
        assert(sp_object(s, start + 1, (f - 1) as nat) == Ok::<
            _,
            (crate::parser::Expected, int),
        >((Json::Obj(ms), close + 1)));
        assert(sp_value(s, i, f) == Ok::<_, (crate::parser::Expected, int)>(
            (Json::Obj(ms), skip_ws(s, e)),
        ));
    
}


/// Parsing the pretty rendering of one `"key": value` entry recovers it,
/// ending after the value's trailing whitespace.
#[verifier::rlimit(100)]
proof fn lemma_sp_pretty_pair(
    s: Seq<char>,
    i: int,
    m: (Seq<char>, Json),
    width: int,
    ch: char,
    cur: int,
    f: nat,
)
    requires
        wf_json(m.1),
        is_ws(ch),
        0 <= width,
        0 <= cur,
        0 <= i,
        i + pretty_entry_text(m, width, ch, cur).len() <= s.len(),
        s.subrange(i, i + pretty_entry_text(m, width, ch, cur).len() as int) == pretty_entry_text(
            m,
            width,
            ch,
            cur,
        ),
        num_boundary(s, i + pretty_entry_text(m, width, ch, cur).len()),
        f >= 2 * (s.len() - i) + 1,
    ensures
        sp_pair(s, i, f) == Ok::<_, (crate::parser::Expected, int)>(
            (m, skip_ws(s, i + pretty_entry_text(m, width, ch, cur).len() as int)),
        ),
    decreases m, 2int,
{
    let r = pretty_entry_text(m, width, ch, cur);
    let rl = r.len() as int;
    let ek = escape_str(m.0);
    let ekl = ek.len() as int;
    let pv = pretty_value(m.1, width, ch, sat_add_usize(cur, width), true);
    assert(r == seq!['"'] + ek + seq!['"', ':', ' '] + pv);
    assert forall|k: int| 0 <= k < rl implies s[i + k] == r[k] by {
        assert(s.subrange(i, i + rl)[k] == s[i + k]);
    }
    assert((seq!['"'] + ek + seq!['"', ':', ' '] + pv)[0] == '"');
    assert(r[0] == '"');
    assert(s[i + 0] == '"');
    assert(s[i] == s[i + 0]);
    assert(s.subrange(i + 1, i + 1 + ekl) =~= ek) by {
        assert forall|k: int| 0 <= k < ekl implies s.subrange(i + 1, i + 1 + ekl)[k] == ek[k] by {
            assert(s[i + (1 + k)] == r[1 + k]);
            assert(r[1 + k] == ek[k]);
        }
    }
    assert(s[i + (1 + ekl)] == r[1 + ekl]);
    assert(r[1 + ekl] == '"');
    lemma_sp_string_render(s, i + 1, m.0);
    let jk = i + 1 + ekl + 1;
    assert(sp_string(s, i + 1) == Ok::<_, (crate::parser::Expected, int)>((m.0, jk)));
    assert(s[i + (2 + ekl)] == r[2 + ekl]);
    assert(r[2 + ekl] == ':');
    assert(s[jk] == ':');
    crate::parser::lemma_skip_ws(s, jk);
    assert(skip_ws(s, jk) == jk);
    assert(s[i + (3 + ekl)] == r[3 + ekl]);
    assert(r[3 + ekl] == ' ');
    assert(s[jk + 1] == ' ');
    let vstart = jk + 2;
    assert forall|k: int| 0 <= k < pv.len() implies s[vstart + k] == pv[k] by {
        assert(s[i + (4 + ekl + k)] == r[4 + ekl + k]);
        assert(r[4 + ekl + k] == pv[k]);
    }
    assert(s.subrange(vstart, vstart + pv.len() as int) =~= pv);
    lemma_pretty_first(m.1, width, ch, sat_add_usize(cur, width), true);
    assert(s[vstart] == pv[0]) by {
        assert(s[vstart + 0] == pv[0]);
    }
    assert(is_ws(' '));
    lemma_skip_run(s, jk + 1, vstart);
    assert(vstart + pv.len() == i + rl);
    assert(num_boundary(s, vstart + pv.len() as int));
    lemma_sp_value_pretty(
        s,
        jk + 1,
        vstart,
        m.1,
        width,
        ch,
        sat_add_usize(cur, width),
        true,
        (f - 1) as nat,
    );
    assert(sp_value(s, jk + 1, (f - 1) as nat) == Ok::<_, (crate::parser::Expected, int)>(
        (m.1, skip_ws(s, i + rl)),
    ));
    assert((m.0, m.1) == m);
}

/// The pretty text of one object entry, without its leading indentation.
pub open spec fn pretty_entry_text(m: (Seq<char>, Json), width: int, ch: char, cur: int) -> Seq<
    char,
> {
    seq!['"'] + escape_str(m.0) + seq!['"', ':', ' '] + pretty_value(
        m.1,
        width,
        ch,
        sat_add_usize(cur, width),
        true,
    )
}

/// After one parsed element of a pretty array: each further element sits
/// after a comma, a line break and its indentation; a whitespace run
/// leads from the last element to the closing bracket.
#[verifier::rlimit(100)]
proof fn lemma_sp_pretty_elems(
    s: Seq<char>,
    pos: int,
    done: Seq<Json>,
    rest: Seq<Json>,
    width: int,
    ch: char,
    cur: int,
    close: int,
    f: nat,
)
    requires
        wf_json(Json::Arr(rest)),
        is_ws(ch),
        0 <= width,
        0 <= cur,
        0 <= pos <= close < s.len(),
        s[close] == ']',
        rest.len() == 0 ==> pos == close,
        rest.len() > 0 ==> {
            &&& s[pos] == ','
            &&& s[pos + 1] == '\n'
            &&& pos + 2 + pretty_elems(rest, width, ch, cur).len() <= close
            &&& s.subrange(pos + 2, pos + 2 + pretty_elems(rest, width, ch, cur).len() as int)
                == pretty_elems(rest, width, ch, cur)
            &&& forall|k: int|
                pos + 2 + pretty_elems(rest, width, ch, cur).len() <= k < close ==> is_ws(
                    #[trigger] s[k],
                )
        },
        f >= 2 * (s.len() - pos) + 1,
    ensures
        sp_more_elems(s, pos, done, f) == Ok::<_, (crate::parser::Expected, int)>(
            (Json::Arr(done + rest), close + 1),
        ),
    decreases rest, 0int,
{
    if rest.len() == 0 {
        assert(s[pos] == ']');
        assert(sp_more_elems(s, pos, done, f) == sp_close_arr(s, pos, done));
        assert(done + rest =~= done);
    } else {
        let pe = pretty_elems(rest, width, ch, cur);
        let pel = pe.len() as int;
        let deeper = sat_add_usize(cur, width);
        let pv0 = pretty_value(rest[0], width, ch, deeper, true);
        let pv0l = pv0.len() as int;
        let tailp: Seq<char> = if rest.len() == 1 {
            Seq::<char>::empty()
        } else {
            seq![',', '\n'] + pretty_elems(rest.drop_first(), width, ch, cur)
        };
        assert(pe == indent_chars(ch, cur) + pv0 + tailp);
        assert forall|k: int| 0 <= k < pel implies s[pos + 2 + k] == pe[k] by {
            assert(s.subrange(pos + 2, pos + 2 + pel)[k] == s[pos + 2 + k]);
        }
        crate::value::lemma_wf_elem_at(rest, 0);
        lemma_pretty_first(rest[0], width, ch, deeper, true);
        let vstart = pos + 2 + cur;
        assert forall|k: int| 0 <= k < pv0l implies s[vstart + k] == pv0[k] by {
            assert(s[pos + 2 + (cur + k)] == pe[cur + k]);
            assert(pe[cur + k] == pv0[k]);
        }
        assert(s.subrange(vstart, vstart + pv0l) =~= pv0);
        assert(s[vstart] == pv0[0]) by {
            assert(s[vstart + 0] == pv0[0]);
        }
        assert forall|k: int| pos + 1 <= k < vstart implies is_ws(#[trigger] s[k]) by {
            if k == pos + 1 {
                assert(s[k] == '\n');
            } else {
                assert(s[pos + 2 + (k - pos - 2)] == pe[k - pos - 2]);
                assert(pe[k - pos - 2] == indent_chars(ch, cur)[k - pos - 2]);
                assert(s[k] == ch);
            }
        }
        lemma_skip_run(s, pos + 1, vstart);
        let e0 = vstart + pv0l;
        if rest.len() == 1 {
            assert(e0 == pos + 2 + pel);
            assert(e0 <= close);
            assert(num_boundary(s, e0)) by {
                if e0 < close {
                    assert(is_ws(s[e0]));
                }
            }
            lemma_sp_value_pretty(
                s,
                pos + 1,
                vstart,
                rest[0],
                width,
                ch,
                deeper,
                true,
                (f - 1) as nat,
            );
            lemma_skip_run(s, e0, close);
            assert(sp_value(s, pos + 1, (f - 1) as nat) == Ok::<
                _,
                (crate::parser::Expected, int),
            >((rest[0], close)));
            assert(wf_json(Json::Arr(rest.drop_first())));
            lemma_sp_pretty_elems(
                s,
                close,
                done.push(rest[0]),
                rest.drop_first(),
                width,
                ch,
                cur,
                close,
                (f - 1) as nat,
            );
            assert(done.push(rest[0]) + rest.drop_first() =~= done + rest);
            assert(sp_more_elems(s, pos, done, f) == sp_more_elems(
                s,
                close,
                done.push(rest[0]),
                (f - 1) as nat,
            ));
        } else {
            assert(s[e0] == ',') by {
                assert(s[pos + 2 + (cur + pv0l)] == pe[cur + pv0l]);
                assert(pe[cur + pv0l] == tailp[0]);
                assert(tailp[0] == ',');
            }
            assert(num_boundary(s, e0));
            lemma_sp_value_pretty(
                s,
                pos + 1,
                vstart,
                rest[0],
                width,
                ch,
                deeper,
                true,
                (f - 1) as nat,
            );
            crate::parser::lemma_skip_ws(s, e0);
            assert(skip_ws(s, e0) == e0);
            assert(sp_value(s, pos + 1, (f - 1) as nat) == Ok::<
                _,
                (crate::parser::Expected, int),
            >((rest[0], e0)));
            let pe2 = pretty_elems(rest.drop_first(), width, ch, cur);
            assert(s[e0 + 1] == '\n') by {
                assert(s[pos + 2 + (cur + pv0l + 1)] == pe[cur + pv0l + 1]);
                assert(pe[cur + pv0l + 1] == tailp[1]);
                assert(tailp[1] == '\n');
            }
            assert(s.subrange(e0 + 2, e0 + 2 + pe2.len() as int) =~= pe2) by {
                assert forall|k: int|
                    0 <= k < pe2.len() implies s.subrange(e0 + 2, e0 + 2 + pe2.len() as int)[k]
                    == pe2[k] by {
                    assert(s[pos + 2 + (cur + pv0l + 2 + k)] == pe[cur + pv0l + 2 + k]);
                    assert(pe[cur + pv0l + 2 + k] == tailp[2 + k]);
                    assert(tailp[2 + k] == pe2[k]);
                }
            }
            assert(e0 + 2 + pe2.len() == pos + 2 + pel);
            assert(wf_json(Json::Arr(rest.drop_first()))) by {
                assert(forall|q: int|
                    0 <= q < rest.drop_first().len() ==> #[trigger] rest.drop_first()[q]
                        == rest[q + 1]);
            }
            lemma_sp_pretty_elems(
                s,
                e0,
                done.push(rest[0]),
                rest.drop_first(),
                width,
                ch,
                cur,
                close,
                (f - 1) as nat,
            );
            assert(done.push(rest[0]) + rest.drop_first() =~= done + rest);
            assert(sp_more_elems(s, pos, done, f) == sp_more_elems(
                s,
                e0,
                done.push(rest[0]),
                (f - 1) as nat,
            ));
        }
    }
}

/// After one parsed entry of a pretty object: each further entry sits
/// after a comma, a line break and its indentation; a whitespace run
/// leads from the last entry to the closing brace.
#[verifier::rlimit(100)]
proof fn lemma_sp_pretty_pairs(
    s: Seq<char>,
    pos: int,
    done: Seq<(Seq<char>, Json)>,
    rest: Seq<(Seq<char>, Json)>,
    width: int,
    ch: char,
    cur: int,
    close: int,
    f: nat,
)
    requires
        wf_json(Json::Obj(rest)),
        keys_unique(done + rest),
        is_ws(ch),
        0 <= width,
        0 <= cur,
        0 <= pos <= close < s.len(),
        s[close] == '}',
        rest.len() == 0 ==> pos == close,
        rest.len() > 0 ==> {
            &&& s[pos] == ','
            &&& s[pos + 1] == '\n'
            &&& pos + 2 + pretty_entries(rest, width, ch, cur).len() <= close
            &&& s.subrange(pos + 2, pos + 2 + pretty_entries(rest, width, ch, cur).len() as int)
                == pretty_entries(rest, width, ch, cur)
            &&& forall|k: int|
                pos + 2 + pretty_entries(rest, width, ch, cur).len() <= k < close ==> is_ws(
                    #[trigger] s[k],
                )
        },
        f >= 2 * (s.len() - pos) + 1,
    ensures
        sp_more_pairs(s, pos, done, f) == Ok::<_, (crate::parser::Expected, int)>(
            (Json::Obj(done + rest), close + 1),
        ),
    decreases rest, 0int,
{
    if rest.len() == 0 {
        assert(s[pos] == '}');
        assert(sp_more_pairs(s, pos, done, f) == sp_close_obj(s, pos, done));
        assert(done + rest =~= done);
    } else {
        let pe = pretty_entries(rest, width, ch, cur);
        let pel = pe.len() as int;
        let r0 = pretty_entry_text(rest[0], width, ch, cur);
        let r0l = r0.len() as int;
        let tailp: Seq<char> = if rest.len() == 1 {
            Seq::<char>::empty()
        } else {
            seq![',', '\n'] + pretty_entries(rest.drop_first(), width, ch, cur)
        };
        assert(pe == indent_chars(ch, cur) + r0 + tailp);
        assert forall|k: int| 0 <= k < pel implies s[pos + 2 + k] == pe[k] by {
            assert(s.subrange(pos + 2, pos + 2 + pel)[k] == s[pos + 2 + k]);
        }
        crate::value::lemma_wf_entry_at(rest, 0);
        let kstart = pos + 2 + cur;
        assert forall|k: int| 0 <= k < r0l implies s[kstart + k] == r0[k] by {
            assert(s[pos + 2 + (cur + k)] == pe[cur + k]);
            assert(pe[cur + k] == r0[k]);
        }
        assert(s.subrange(kstart, kstart + r0l) =~= r0);
        assert(s[kstart] == r0[0]) by {
            assert(s[kstart + 0] == r0[0]);
        }
        assert(r0[0] == '"');
        assert forall|k: int| pos + 1 <= k < kstart implies is_ws(#[trigger] s[k]) by {
            if k == pos + 1 {
                assert(s[k] == '\n');
            } else {
                assert(s[pos + 2 + (k - pos - 2)] == pe[k - pos - 2]);
                assert(pe[k - pos - 2] == indent_chars(ch, cur)[k - pos - 2]);
                assert(s[k] == ch);
            }
        }
        lemma_skip_run(s, pos + 1, kstart);
        let e0 = kstart + r0l;
        // a fresh key appends
        assert(obj_set(done, rest[0].0, rest[0].1) =~= done.push(rest[0])) by {
            crate::object::lemma_find_key(done, rest[0].0);
            let fk = crate::object::find_key(done, rest[0].0);
            if fk >= 0 {
                assert((done + rest)[fk] == done[fk]);
                assert((done + rest)[done.len() as int] == rest[0]);
                assert(done[fk].0 != rest[0].0);
            }
        }
        assert(keys_unique(done.push(rest[0]) + rest.drop_first())) by {
            assert(done.push(rest[0]) + rest.drop_first() =~= done + rest);
        }
        if rest.len() == 1 {
            assert(e0 == pos + 2 + pel);
            assert(e0 <= close);
            assert(num_boundary(s, e0)) by {
                if e0 < close {
                    assert(is_ws(s[e0]));
                }
            }
            lemma_sp_pretty_pair(s, kstart, rest[0], width, ch, cur, (f - 1) as nat);
            lemma_skip_run(s, e0, close);
            assert(sp_pair(s, kstart, (f - 1) as nat) == Ok::<
                _,
                (crate::parser::Expected, int),
            >((rest[0], close)));
            assert(wf_json(Json::Obj(rest.drop_first())));
            lemma_sp_pretty_pairs(
                s,
                close,
                done.push(rest[0]),
                rest.drop_first(),
                width,
                ch,
                cur,
                close,
                (f - 1) as nat,
            );
            assert(done.push(rest[0]) + rest.drop_first() =~= done + rest);
            assert(sp_more_pairs(s, pos, done, f) == sp_more_pairs(
                s,
                close,
                done.push(rest[0]),
                (f - 1) as nat,
            ));
        } else {
            assert(s[e0] == ',') by {
                assert(s[pos + 2 + (cur + r0l)] == pe[cur + r0l]);
                assert(pe[cur + r0l] == tailp[0]);
                assert(tailp[0] == ',');
            }
            assert(num_boundary(s, e0));
            lemma_sp_pretty_pair(s, kstart, rest[0], width, ch, cur, (f - 1) as nat);
            crate::parser::lemma_skip_ws(s, e0);
            assert(skip_ws(s, e0) == e0);
            assert(sp_pair(s, kstart, (f - 1) as nat) == Ok::<
                _,
                (crate::parser::Expected, int),
            >((rest[0], e0)));
            let pe2 = pretty_entries(rest.drop_first(), width, ch, cur);
            assert(s[e0 + 1] == '\n') by {
                assert(s[pos + 2 + (cur + r0l + 1)] == pe[cur + r0l + 1]);
                assert(pe[cur + r0l + 1] == tailp[1]);
                assert(tailp[1] == '\n');
            }
            assert(s.subrange(e0 + 2, e0 + 2 + pe2.len() as int) =~= pe2) by {
                assert forall|k: int|
                    0 <= k < pe2.len() implies s.subrange(e0 + 2, e0 + 2 + pe2.len() as int)[k]
                    == pe2[k] by {
                    assert(s[pos + 2 + (cur + r0l + 2 + k)] == pe[cur + r0l + 2 + k]);
                    assert(pe[cur + r0l + 2 + k] == tailp[2 + k]);
                    assert(tailp[2 + k] == pe2[k]);
                }
            }
            assert(e0 + 2 + pe2.len() == pos + 2 + pel);
            assert(wf_json(Json::Obj(rest.drop_first()))) by {
                assert(forall|q: int|
                    0 <= q < rest.drop_first().len() ==> #[trigger] rest.drop_first()[q]
                        == rest[q + 1]);
            }
            lemma_sp_pretty_pairs(
                s,
                e0,
                done.push(rest[0]),
                rest.drop_first(),
                width,
                ch,
                cur,
                close,
                (f - 1) as nat,
            );
            assert(done.push(rest[0]) + rest.drop_first() =~= done + rest);
            assert(sp_more_pairs(s, pos, done, f) == sp_more_pairs(
                s,
                e0,
                done.push(rest[0]),
                (f - 1) as nat,
            ));
        }
    }
}

/// Parsing the formatter's pretty output of any well-formed value yields
/// exactly that value, consuming the whole text, whenever the
/// indentation character is whitespace.
pub proof fn lemma_parse_of_pretty(j: Json, width: int, ch: char)
    requires
        wf_json(j),
        is_ws(ch),
        0 <= width,
    ensures
        sp_doc(pretty_value(j, width, ch, width, false)) == Ok::<
            _,
            (crate::parser::Expected, int),
        >((j, pretty_value(j, width, ch, width, false).len() as int)),
{
    let s = pretty_value(j, width, ch, width, false);
    assert(s.subrange(0, s.len() as int) =~= s);
    lemma_pretty_first(j, width, ch, width, false);
    crate::parser::lemma_skip_ws(s, 0);
    assert(skip_ws(s, 0) == 0);
    lemma_sp_value_pretty(s, 0, 0, j, width, ch, width, false, crate::parser::fuel_at(s, 0));
    crate::parser::lemma_skip_ws(s, s.len() as int);
}

} // verus!
