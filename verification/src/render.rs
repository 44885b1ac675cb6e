//! The compact textual form of a value.
//!
//! Strings are quoted with standard escape sequences, numbers render in
//! plain decimal notation, objects and arrays are brace- and
//! bracket-delimited, comma-separated, with no inserted whitespace.

use vstd::prelude::*;

use crate::number::JsonNumber;
use crate::number::digit_char;
use crate::number::digit_chars;
use crate::number::digits_wf;
use crate::number::num_wf;
use crate::number::render_num;
use crate::number::EXP_LIMIT;
use crate::number::zero_chars;
use crate::text::push_char;
use vstd::string::StringExecFns;
use crate::text::str_to_chars;
use crate::value::Json;
use crate::value::JsonArray;
use crate::value::JsonObject;
use crate::value::JsonValue;
use crate::value::lemma_elems_model;
use crate::value::lemma_entries_model;
use crate::value::wf_json;

verus! {

broadcast use vstd::std_specs::vec::group_vec_axioms;

/// The hexadecimal digit for `d`, with lower-case letters.
pub open spec fn hex_digit(d: u32) -> char {
    if d < 10 {
        ((0x30 + d) as u8) as char
    } else {
        ((0x57 + d) as u8) as char
    }
}

/// How one character appears inside a quoted string: quotes, backslashes
/// and control characters are escaped, everything else stands as itself.
pub open spec fn esc_char(c: char) -> Seq<char> {
    if c == '"' {
        seq!['\\', '"']
    } else if c == '\\' {
        seq!['\\', '\\']
    } else if c == '\n' {
        seq!['\\', 'n']
    } else if c == '\r' {
        seq!['\\', 'r']
    } else if c == '\t' {
        seq!['\\', 't']
    } else if (c as u32) == 0x8 {
        seq!['\\', 'b']
    } else if (c as u32) == 0xc {
        seq!['\\', 'f']
    } else if (c as u32) < 0x20 {
        seq!['\\', 'u', '0', '0', hex_digit((c as u32) / 16), hex_digit((c as u32) % 16)]
    } else {
        seq![c]
    }
}

pub open spec fn escape_str(s: Seq<char>) -> Seq<char>
    decreases s.len(),
{
    if s.len() == 0 {
        Seq::empty()
    } else {
        esc_char(s[0]) + escape_str(s.drop_first())
    }
}

/// The compact text of a value.
pub open spec fn render_value(j: Json) -> Seq<char>
    decreases j,
{
    match j {
        Json::Str(s) => seq!['"'] + escape_str(s) + seq!['"'],
        Json::Num(n) => render_num(n),
        Json::Bool(b) => if b {
            "true"@
        } else {
            "false"@
        },
        Json::Null => "null"@,
        Json::Arr(s) => seq!['['] + render_elems(s) + seq![']'],
        Json::Obj(ms) => seq!['{'] + render_entries(ms) + seq!['}'],
    }
}

pub open spec fn render_elems(s: Seq<Json>) -> Seq<char>
    decreases s,
{
    if s.len() == 0 {
        Seq::empty()
    } else {
        render_value(s[0]) + render_elems_rest(s.drop_first())
    }
}

pub open spec fn render_elems_rest(s: Seq<Json>) -> Seq<char>
    decreases s,
{
    if s.len() == 0 {
        Seq::empty()
    } else {
        seq![','] + render_value(s[0]) + render_elems_rest(s.drop_first())
    }
}

pub open spec fn render_entry(m: (Seq<char>, Json)) -> Seq<char>
    decreases m,
{
    seq!['"'] + escape_str(m.0) + seq!['"', ':'] + render_value(m.1)
}

pub open spec fn render_entries(ms: Seq<(Seq<char>, Json)>) -> Seq<char>
    decreases ms,
{
    if ms.len() == 0 {
        Seq::empty()
    } else {
        render_entry(ms[0]) + render_entries_rest(ms.drop_first())
    }
}

pub open spec fn render_entries_rest(ms: Seq<(Seq<char>, Json)>) -> Seq<char>
    decreases ms,
{
    if ms.len() == 0 {
        Seq::empty()
    } else {
        seq![','] + render_entry(ms[0]) + render_entries_rest(ms.drop_first())
    }
}

/// Escaping a string one character longer appends that character's form.
pub proof fn lemma_escape_snoc(s: Seq<char>, c: char)
    ensures
        escape_str(s.push(c)) == escape_str(s) + esc_char(c),
    decreases s.len(),
{
    if s.len() == 0 {
        assert(s.push(c)[0] == c);
        assert(s.push(c).drop_first() =~= Seq::<char>::empty());
        assert(escape_str(Seq::<char>::empty()) =~= Seq::<char>::empty());
        assert(escape_str(s.push(c)) =~= esc_char(c) + escape_str(Seq::<char>::empty()));
        assert(escape_str(s.push(c)) =~= esc_char(c));
        assert(escape_str(s) + esc_char(c) =~= esc_char(c));
    } else {
        assert(s.push(c).drop_first() =~= s.drop_first().push(c));
        lemma_escape_snoc(s.drop_first(), c);
        assert(s.push(c)[0] == s[0]);
        assert(escape_str(s.push(c)) == esc_char(s[0]) + (escape_str(s.drop_first()) + esc_char(
            c,
        )));
        assert(esc_char(s[0]) + (escape_str(s.drop_first()) + esc_char(c)) =~= (esc_char(s[0])
            + escape_str(s.drop_first())) + esc_char(c));
    }
}

/// Writes the escaped form of every character of `s`.
#[verifier::loop_isolation(false)]
pub(crate) fn write_escaped(s: &str, out: &mut String)
    ensures
        final(out)@ == old(out)@ + escape_str(s@),
{
    let cs = str_to_chars(s);
    let n = cs.len();
    let mut i: usize = 0;
    proof {
        assert(cs@.take(0) =~= Seq::<char>::empty());
        assert(old(out)@ + escape_str(cs@.take(0)) =~= old(out)@);
    }
    while i < n
        invariant
            0 <= i <= n,
            n == cs@.len(),
            cs@ == s@,
            out@ == old(out)@ + escape_str(cs@.take(i as int)),
        decreases n - i,
    {
        let c = cs[i];
        let u = c as u32;
        if c == '"' {
            push_char(out, '\\');
            push_char(out, '"');
        } else if c == '\\' {
            push_char(out, '\\');
            push_char(out, '\\');
        } else if c == '\n' {
            push_char(out, '\\');
            push_char(out, 'n');
        } else if c == '\r' {
            push_char(out, '\\');
            push_char(out, 'r');
        } else if c == '\t' {
            push_char(out, '\\');
            push_char(out, 't');
        } else if u == 0x8 {
            push_char(out, '\\');
            push_char(out, 'b');
        } else if u == 0xc {
            push_char(out, '\\');
            push_char(out, 'f');
        } else if u < 0x20 {
            push_char(out, '\\');
            push_char(out, 'u');
            push_char(out, '0');
            push_char(out, '0');
            push_char(out, hex_digit_char(u / 16));
            push_char(out, hex_digit_char(u % 16));
        } else {
            push_char(out, c);
        }
        proof {
            assert(cs@.take(i + 1) =~= cs@.take(i as int).push(cs@[i as int]));
            lemma_escape_snoc(cs@.take(i as int), cs@[i as int]);
            assert(out@ =~= old(out)@ + escape_str(cs@.take(i + 1)));
        }
        i = i + 1;
    }
    proof {
        assert(cs@.take(n as int) =~= cs@);
    }
}

/// The hexadecimal digit character for `d`.
fn hex_digit_char(d: u32) -> (c: char)
    requires
        d < 16,
    ensures
        c == hex_digit(d),
{
    if d < 10 {
        ((0x30 + d) as u8) as char
    } else {
        ((0x57 + d) as u8) as char
    }
}

/// Writes the digits `ds[from..to]` as characters.
#[verifier::loop_isolation(false)]
pub(crate) fn write_digits(ds: &Vec<u8>, from: usize, to: usize, out: &mut String)
    requires
        from <= to <= ds@.len(),
        forall|i: int| 0 <= i < ds@.len() ==> ds@[i] < 10,
    ensures
        final(out)@ == old(out)@ + digit_chars(ds@.subrange(from as int, to as int)),
{
    let mut i: usize = from;
    proof {
        assert(ds@.subrange(from as int, from as int) =~= Seq::<u8>::empty());
        assert(digit_chars(Seq::<u8>::empty()) =~= Seq::<char>::empty());
        assert(out@ + digit_chars(ds@.subrange(from as int, from as int)) =~= out@);
    }
    while i < to
        invariant
            from <= i <= to <= ds@.len(),
            forall|k: int| 0 <= k < ds@.len() ==> ds@[k] < 10,
            out@ == old(out)@ + digit_chars(ds@.subrange(from as int, i as int)),
        decreases to - i,
    {
        let d = ds[i];
        push_char(out, ((0x30 + d) as u8) as char);
        proof {
            assert(ds@.subrange(from as int, i + 1) =~= ds@.subrange(
                from as int,
                i as int,
            ).push(ds@[i as int]));
            lemma_digit_chars_snoc(ds@.subrange(from as int, i as int), ds@[i as int]);
            assert(out@ =~= old(out)@ + digit_chars(ds@.subrange(from as int, i + 1)));
        }
        i = i + 1;
    }
}

pub proof fn lemma_digit_chars_snoc(s: Seq<u8>, d: u8)
    ensures
        digit_chars(s.push(d)) == digit_chars(s).push(digit_char(d)),
{
    assert(digit_chars(s.push(d)) =~= digit_chars(s).push(digit_char(d)));
}

/// Writes `count` zero characters.
#[verifier::loop_isolation(false)]
fn write_zeros(count: i64, out: &mut String)
    requires
        count >= 0,
    ensures
        final(out)@ == old(out)@ + zero_chars(count as int),
{
    let mut j: i64 = 0;
    proof {
        assert(zero_chars(0) =~= Seq::<char>::empty());
        assert(out@ + zero_chars(0) =~= out@);
    }
    while j < count
        invariant
            0 <= j <= count,
            out@ == old(out)@ + zero_chars(j as int),
        decreases count - j,
    {
        push_char(out, '0');
        proof {
            assert(zero_chars(j + 1) =~= zero_chars(j as int).push('0'));
            assert(out@ =~= old(out)@ + zero_chars(j + 1));
        }
        j = j + 1;
    }
}

/// Writes the plain decimal form of the number.
pub(crate) fn write_num(n: &JsonNumber, out: &mut String)
    requires
        num_wf(n@),
    ensures
        final(out)@ == old(out)@ + render_num(n@),
{
    let len = n.digits.len();
    if len == 0 {
        push_char(out, '0');
        proof {
            assert(old(out)@.push('0') =~= old(out)@ + render_num(n@));
        }
        return ;
    }
    if n.neg {
        push_char(out, '-');
    }
    let ghost sign: Seq<char> = if n@.neg {
        seq!['-']
    } else {
        Seq::<char>::empty()
    };
    proof {
        assert(out@ =~= old(out)@ + sign);
    }
    if n.exp >= 0 {
        write_digits(&n.digits, 0, len, out);
        proof {
            assert(n.digits@.subrange(0, len as int) =~= n.digits@);
        }
        write_zeros(n.exp, out);
        proof {
            assert(((old(out)@ + sign) + digit_chars(n.digits@)) + zero_chars(n@.exp) =~= old(
                out,
            )@ + (sign + digit_chars(n@.digits) + zero_chars(n@.exp)));
        }
    } else {
        let k: i128 = (len as i128) + (n.exp as i128);
        if k > 0 {
            let ku = k as usize;
            write_digits(&n.digits, 0, ku, out);
            push_char(out, '.');
            write_digits(&n.digits, ku, len, out);
            proof {
                let kk = n@.digits.len() + n@.exp;
                assert(n.digits@.subrange(0, kk) =~= n@.digits.take(kk));
                assert(n.digits@.subrange(kk, len as int) =~= n@.digits.skip(kk));
                assert((((old(out)@ + sign) + digit_chars(n@.digits.take(kk))).push('.'))
                    + digit_chars(n@.digits.skip(kk)) =~= old(out)@ + (sign + digit_chars(
                    n@.digits.take(kk),
                ) + seq!['.'] + digit_chars(n@.digits.skip(kk))));
            }
        } else {
            push_char(out, '0');
            push_char(out, '.');
            proof {
                assert(-k <= EXP_LIMIT as i128);
            }
            let z: i64 = (-k) as i64;
            write_zeros(z, out);
            write_digits(&n.digits, 0, len, out);
            proof {
                let kk = n@.digits.len() + n@.exp;
                assert(z as int == -kk);
                assert(n.digits@.subrange(0, len as int) =~= n@.digits);
                assert((((old(out)@ + sign).push('0').push('.')) + zero_chars(-kk)) + digit_chars(
                    n@.digits,
                ) =~= old(out)@ + (sign + seq!['0', '.'] + zero_chars(-kk) + digit_chars(
                    n@.digits,
                )));
            }
        }
    }
}

/// Writes the compact text of `v`.
#[verifier::loop_isolation(false)]
#[verifier::rlimit(60)]
pub(crate) fn write_value(v: &JsonValue, out: &mut String)
    requires
        wf_json(v@),
    ensures
        final(out)@ == old(out)@ + render_value(v@),
    decreases v, 0int,
{
    match v {
        JsonValue::String(s) => {
            push_char(out, '"');
            write_escaped(s.as_str(), out);
            push_char(out, '"');
            proof {
                assert(((old(out)@.push('"')) + escape_str(s@)).push('"') =~= old(out)@ + (seq![
                    '"',
                ] + escape_str(s@) + seq!['"']));
            }
        },
        JsonValue::Number(n) => {
            write_num(n, out);
        },
        JsonValue::Null => {
            out.append("null");
        },
        JsonValue::Boolean(b) => {
            if *b {
                out.append("true");
            } else {
                out.append("false");
            }
        },
        JsonValue::Object(o) => {
            proof {
                lemma_entries_model(o.entries@);
            }
            push_char(out, '{');
            let ghost ms = o@;
            let n = o.entries.len();
            if n > 0 {
                proof {
                    crate::value::lemma_wf_entry_at(ms, 0);
                }
                write_entry(&o.entries[0].0, &o.entries[0].1, out);
                proof {
                    assert(out@ =~= old(out)@ + seq!['{'] + render_entry(ms[0]));
                }
                let mut j: usize = 1;
                while j < n
                    invariant
                        1 <= j <= n,
                        n == o.entries@.len(),
                        ms == crate::value::object_model(o),
                        ms.len() == n,
                        wf_json(Json::Obj(ms)),
                        out@ + render_entries_rest(ms.skip(j as int)) == old(out)@ + seq!['{']
                            + render_entries(ms),
                    decreases n - j,
                {
                    proof {
                        lemma_entries_model(o.entries@);
                        crate::value::lemma_wf_entry_at(ms, j as int);
                    }
                    push_char(out, ',');
                    write_entry(&o.entries[j].0, &o.entries[j].1, out);
                    proof {
                        assert(ms.skip(j as int)[0] == ms[j as int]);
                        assert(ms.skip(j as int).drop_first() =~= ms.skip(j + 1));
                        assert(render_entries_rest(ms.skip(j as int)) =~= seq![',']
                            + render_entry(ms[j as int]) + render_entries_rest(ms.skip(j + 1)));
                        assert(out@ + render_entries_rest(ms.skip(j + 1)) =~= old(out)@ + seq!['{']
                            + render_entries(ms));
                    }
                    j = j + 1;
                }
                proof {
                    assert(ms.skip(n as int) =~= Seq::<(Seq<char>, Json)>::empty());
                }
            } else {
                proof {
                    assert(render_entries(ms) =~= Seq::<char>::empty());
                }
            }
            push_char(out, '}');
            proof {
                assert(out@ =~= old(out)@ + (seq!['{'] + render_entries(ms) + seq!['}']));
            }
        },
        JsonValue::Array(a) => {
            proof {
                lemma_elems_model(a.vec@);
            }
            push_char(out, '[');
            let ghost s = a@;
            let n = a.vec.len();
            if n > 0 {
                proof {
                    crate::value::lemma_wf_elem_at(s, 0);
                }
                write_value(&a.vec[0], out);
                proof {
                    assert(out@ =~= old(out)@ + seq!['['] + render_value(s[0]));
                }
                let mut j: usize = 1;
                while j < n
                    invariant
                        1 <= j <= n,
                        n == a.vec@.len(),
                        s == crate::value::array_model(a),
                        s.len() == n,
                        wf_json(Json::Arr(s)),
                        out@ + render_elems_rest(s.skip(j as int)) == old(out)@ + seq!['[']
                            + render_elems(s),
                    decreases n - j,
                {
                    proof {
                        lemma_elems_model(a.vec@);
                        crate::value::lemma_wf_elem_at(s, j as int);
                    }
                    push_char(out, ',');
                    write_value(&a.vec[j], out);
                    proof {
                        assert(s.skip(j as int)[0] == s[j as int]);
                        assert(s.skip(j as int).drop_first() =~= s.skip(j + 1));
                        assert(render_elems_rest(s.skip(j as int)) =~= seq![',']
                            + render_value(s[j as int]) + render_elems_rest(s.skip(j + 1)));
                        assert(out@ + render_elems_rest(s.skip(j + 1)) =~= old(out)@ + seq!['[']
                            + render_elems(s));
                    }
                    j = j + 1;
                }
                proof {
                    assert(s.skip(n as int) =~= Seq::<Json>::empty());
                }
            } else {
                proof {
                    assert(render_elems(s) =~= Seq::<char>::empty());
                }
            }
            push_char(out, ']');
            proof {
                assert(out@ =~= old(out)@ + (seq!['['] + render_elems(s) + seq![']']));
            }
        },
    }
}

/// Writes one object entry: the quoted key, a colon, then the value.
fn write_entry(k: &String, v: &JsonValue, out: &mut String)
    requires
        wf_json(v@),
    ensures
        final(out)@ == old(out)@ + render_entry((k@, v@)),
    decreases v, 1int,
{
    push_char(out, '"');
    write_escaped(k.as_str(), out);
    proof {
        assert(out@ =~= old(out)@ + seq!['"'] + escape_str(k@));
    }
    push_char(out, '"');
    push_char(out, ':');
    proof {
        assert(out@ =~= old(out)@ + seq!['"'] + escape_str(k@) + seq!['"', ':']);
    }
    write_value(v, out);
    proof {
        assert(render_entry((k@, v@)) == seq!['"'] + escape_str(k@) + seq!['"', ':']
            + render_value(v@)) by {
            assert(render_entry((k@, v@)) =~= seq!['"'] + escape_str(k@) + seq!['"', ':']
                + render_value(v@));
        }
        assert(out@ =~= old(out)@ + render_entry((k@, v@)));
    }
}

impl JsonValue {
    /// The compact text of this value: quoted, escaped strings, plain
    /// decimal numbers, comma-separated items, no inserted whitespace.
    pub fn to_text(&self) -> (r: String)
        requires
            self.wf(),
        ensures
            r@ == render_value(self@),
    {
        let mut out = String::new();
        write_value(self, &mut out);
        out
    }
}

impl JsonObject {
    /// The compact text of this object.
    pub fn to_text(&self) -> (r: String)
        requires
            self.wf(),
        ensures
            r@ == render_value(Json::Obj(self@)),
    {
        let v = JsonValue::Object(self.clone());
        v.to_text()
    }
}

impl JsonArray {
    /// The compact text of this array.
    pub fn to_text(&self) -> (r: String)
        requires
            self.wf(),
        ensures
            r@ == render_value(Json::Arr(self@)),
    {
        let v = JsonValue::Array(self.clone());
        v.to_text()
    }
}

} // verus!
