//! The pretty-printing formatter: a document value to indented text.
//!
//! The configuration is an indentation width (characters per nesting
//! level) and an indentation character, with a default of two spaces.
//! A child's indentation is its parent's plus one level; a closing brace
//! or bracket is indented one level less than its children, and the
//! top-level container's closing line is not indented at all.

use vstd::prelude::*;

use crate::number::num_wf;
use crate::number::render_num;
use crate::render::escape_str;
use crate::text::push_char;
use crate::value::Json;
use crate::value::JsonValue;
use crate::value::lemma_elems_model;
use crate::value::lemma_entries_model;
use crate::value::lemma_wf_elem_at;
use crate::value::lemma_wf_entry_at;
use crate::value::wf_json;
use vstd::string::StringExecFns;

verus! {

broadcast use vstd::std_specs::vec::group_vec_axioms;

/// Adding two widths, saturated at the machine's limit.
pub open spec fn sat_add_usize(a: int, b: int) -> int {
    if a + b > usize::MAX as int {
        usize::MAX as int
    } else {
        a + b
    }
}

/// `k` copies of the indentation character.
pub open spec fn indent_chars(ch: char, k: int) -> Seq<char> {
    Seq::new(
        if k < 0 {
            0
        } else {
            k as nat
        },
        |i: int| ch,
    )
}

/// The pretty text of a value at `cur` characters of child indentation.
/// A closing delimiter of a nested container is indented `cur` minus one
/// level; the top-level container's closing line is not indented.
pub open spec fn pretty_value(j: Json, width: int, ch: char, cur: int, child: bool) -> Seq<char>
    decreases j,
{
    match j {
        Json::Str(s) => seq!['"'] + escape_str(s) + seq!['"'],
        Json::Num(n) => render_num(n),
        Json::Bool(b) => if b {
            "true"@
        } else {
            "false"@
        },
        Json::Null => "null"@,
        Json::Arr(s) => seq!['[', '\n'] + pretty_elems(s, width, ch, cur) + seq!['\n'] + (
        if child {
            indent_chars(ch, cur - width)
        } else {
            Seq::<char>::empty()
        }) + seq![']'],
        Json::Obj(ms) => seq!['{', '\n'] + pretty_entries(ms, width, ch, cur) + seq!['\n'] + (
        if child {
            indent_chars(ch, cur - width)
        } else {
            Seq::<char>::empty()
        }) + seq!['}'],
    }
}

/// The element lines of an array, comma-and-newline separated, each
/// indented by `cur` characters.
pub open spec fn pretty_elems(s: Seq<Json>, width: int, ch: char, cur: int) -> Seq<char>
    decreases s,
{
    if s.len() == 0 {
        Seq::empty()
    } else {
        indent_chars(ch, cur) + pretty_value(s[0], width, ch, sat_add_usize(cur, width), true) + (
        if s.len() == 1 {
            Seq::<char>::empty()
        } else {
            seq![',', '\n'] + pretty_elems(s.drop_first(), width, ch, cur)
        })
    }
}

/// The entry lines of an object: the quoted key, `": "`, the value.
pub open spec fn pretty_entries(ms: Seq<(Seq<char>, Json)>, width: int, ch: char, cur: int) -> Seq<
    char,
>
    decreases ms,
{
    if ms.len() == 0 {
        Seq::empty()
    } else {
        indent_chars(ch, cur) + seq!['"'] + escape_str(ms[0].0) + seq!['"', ':', ' ']
            + pretty_value(ms[0].1, width, ch, sat_add_usize(cur, width), true) + (
        if ms.len() == 1 {
            Seq::<char>::empty()
        } else {
            seq![',', '\n'] + pretty_entries(ms.drop_first(), width, ch, cur)
        })
    }
}

/// A formatter with a chosen indentation width and character.
pub struct JsonFormatter {
    pub(crate) indent: usize,
    pub(crate) indent_char: char,
    pub(crate) current_indent: usize,
}

/// Builds a [`JsonFormatter`] step by step.
pub struct JsonFormatterBuilder {
    pub(crate) indent: usize,
    pub(crate) indent_char: char,
}

impl JsonFormatterBuilder {
    /// A builder whose formatter would indent by nothing.
    pub fn new() -> (r: JsonFormatterBuilder)
        ensures
            r.indent() == 0,
            r.indent_char() == '\u{0}',
    {
        JsonFormatterBuilder { indent: 0, indent_char: '\u{0}' }
    }

    pub open(crate) spec fn indent(&self) -> int {
        self.indent as int
    }

    pub open(crate) spec fn indent_char(&self) -> char {
        self.indent_char
    }

    /// Sets how many indentation characters one nesting level takes.
    pub fn with_indent(self, indent: usize) -> (r: JsonFormatterBuilder)
        ensures
            r.indent() == indent as int,
            r.indent_char() == self.indent_char(),
    {
        JsonFormatterBuilder { indent, indent_char: self.indent_char }
    }

    /// Sets the indentation character.
    pub fn with_indent_char(self, ch: char) -> (r: JsonFormatterBuilder)
        ensures
            r.indent() == self.indent(),
            r.indent_char() == ch,
    {
        JsonFormatterBuilder { indent: self.indent, indent_char: ch }
    }

    /// The formatter with the chosen settings.
    pub fn build(self) -> (r: JsonFormatter)
        ensures
            r.indent() == self.indent(),
            r.indent_char() == self.indent_char(),
    {
        JsonFormatter { indent: self.indent, indent_char: self.indent_char, current_indent: 0 }
    }
}

impl JsonFormatter {
    /// A builder for a formatter.
    pub fn builder() -> (r: JsonFormatterBuilder)
        ensures
            r.indent() == 0,
            r.indent_char() == '\u{0}',
    {
        JsonFormatterBuilder::new()
    }

    pub open(crate) spec fn indent(&self) -> int {
        self.indent as int
    }

    pub open(crate) spec fn indent_char(&self) -> char {
        self.indent_char
    }

    /// The default formatter: two spaces per nesting level.
    pub fn default_formatter() -> (r: JsonFormatter)
        ensures
            r.indent() == 2,
            r.indent_char() == ' ',
    {
        JsonFormatterBuilder::new().with_indent(2).with_indent_char(' ').build()
    }

    /// One level of indentation as a string.
    pub fn indent_str(&self) -> (r: String)
        ensures
            r@ == indent_chars(self.indent_char(), self.indent()),
    {
        let mut out = String::new();
        write_indent(self.indent_char, self.indent, &mut out);
        out
    }

    /// Pretty-prints `target`: children one level deeper per nesting
    /// level, closing delimiters one level back.
    pub fn format(&mut self, target: &JsonValue) -> (r: String)
        requires
            target.wf(),
        ensures
            r@ == pretty_value(
                target@,
                old(self).indent(),
                old(self).indent_char(),
                old(self).indent(),
                false,
            ),
            final(self).indent() == old(self).indent(),
            final(self).indent_char() == old(self).indent_char(),
    {
        self.current_indent = self.indent;
        let mut out = String::new();
        write_pretty(target, self.indent, self.indent_char, self.indent, false, &mut out);
        out
    }
}

impl Default for JsonFormatter {
    /// The default formatter: two spaces per nesting level.
    fn default() -> (r: JsonFormatter)
        ensures
            r.indent() == 2,
            r.indent_char() == ' ',
    {
        JsonFormatter::default_formatter()
    }
}

/// Writes `k` copies of `ch`.
#[verifier::loop_isolation(false)]
fn write_indent(ch: char, k: usize, out: &mut String)
    ensures
        final(out)@ == old(out)@ + indent_chars(ch, k as int),
{
    let mut i: usize = 0;
    proof {
        assert(out@ + indent_chars(ch, 0) =~= out@);
    }
    while i < k
        invariant
            0 <= i <= k,
            out@ == old(out)@ + indent_chars(ch, i as int),
        decreases k - i,
    {
        push_char(out, ch);
        proof {
            assert(out@ =~= old(out)@ + indent_chars(ch, i + 1));
        }
        i = i + 1;
    }
}

/// Writes the pretty text of `v`.
#[verifier::loop_isolation(false)]
#[verifier::rlimit(100)]
fn write_pretty(v: &JsonValue, width: usize, ch: char, cur: usize, child: bool, out: &mut String)
    requires
        wf_json(v@),
        child ==> width <= cur,
    ensures
        final(out)@ == old(out)@ + pretty_value(v@, width as int, ch, cur as int, child),
    decreases v,
{
    match v {
        JsonValue::String(s) => {
            push_char(out, '"');
            crate::render::write_escaped(s.as_str(), out);
            push_char(out, '"');
            proof {
                assert(out@ =~= old(out)@ + pretty_value(v@, width as int, ch, cur as int, child));
            }
        },
        JsonValue::Number(n) => {
            crate::render::write_num(n, out);
        },
        JsonValue::Null => {
            out.append("null");
        },
        JsonValue::Boolean(b) => {
            if *b {
                out.append("true");
            } else {
                out.append("false");
            }
        },
        JsonValue::Array(a) => {
            proof {
                lemma_elems_model(a.vec@);
            }
            push_char(out, '[');
            push_char(out, '\n');
            let ghost s = a@;
            let n = a.vec.len();
            let mut j: usize = 0;
            proof {
                assert(out@ =~= old(out)@ + seq!['[', '\n']);
                assert(s.skip(0) =~= s);
            }
            while j < n
                invariant
                    0 <= j <= n,
                    n == a.vec@.len(),
                    s == crate::value::array_model(a),
                    s.len() == n,
                    wf_json(Json::Arr(s)),
                    out@ + pretty_elems(s.skip(j as int), width as int, ch, cur as int) == old(
                        out,
                    )@ + seq!['[', '\n'] + pretty_elems(s, width as int, ch, cur as int),
                decreases n - j,
            {
                proof {
                    lemma_elems_model(a.vec@);
                    lemma_wf_elem_at(s, j as int);
                }
                write_indent(ch, cur, out);
                let deeper = if cur <= usize::MAX - width {
                    cur + width
                } else {
                    usize::MAX
                };
                write_pretty(&a.vec[j], width, ch, deeper, true, out);
                if j + 1 < n {
                    push_char(out, ',');
                    push_char(out, '\n');
                }
                proof {
                    assert(s.skip(j as int)[0] == s[j as int]);
                    assert(s.skip(j as int).drop_first() =~= s.skip(j + 1));
                    if j + 1 < n {
                        assert(out@ + pretty_elems(s.skip(j + 1), width as int, ch, cur as int)
                            =~= old(out)@ + seq!['[', '\n'] + pretty_elems(
                            s,
                            width as int,
                            ch,
                            cur as int,
                        ));
                    } else {
                        assert(s.skip(j + 1) =~= Seq::<Json>::empty());
                        assert(out@ + pretty_elems(s.skip(j + 1), width as int, ch, cur as int)
                            =~= old(out)@ + seq!['[', '\n'] + pretty_elems(
                            s,
                            width as int,
                            ch,
                            cur as int,
                        ));
                    }
                }
                j = j + 1;
            }
            proof {
                assert(s.skip(n as int) =~= Seq::<Json>::empty());
            }
            push_char(out, '\n');
            if child {
                write_indent(ch, cur - width, out);
            }
            push_char(out, ']');
            proof {
                assert(out@ =~= old(out)@ + pretty_value(v@, width as int, ch, cur as int, child));
            }
        },
        JsonValue::Object(o) => {
            proof {
                lemma_entries_model(o.entries@);
            }
            push_char(out, '{');
            push_char(out, '\n');
            let ghost ms = o@;
            let n = o.entries.len();
            let mut j: usize = 0;
            proof {
                assert(out@ =~= old(out)@ + seq!['{', '\n']);
                assert(ms.skip(0) =~= ms);
            }
            while j < n
                invariant
                    0 <= j <= n,
                    n == o.entries@.len(),
                    ms == crate::value::object_model(o),
                    ms.len() == n,
                    wf_json(Json::Obj(ms)),
                    out@ + pretty_entries(ms.skip(j as int), width as int, ch, cur as int) == old(
                        out,
                    )@ + seq!['{', '\n'] + pretty_entries(ms, width as int, ch, cur as int),
                decreases n - j,
            {
                proof {
                    lemma_entries_model(o.entries@);
                    lemma_wf_entry_at(ms, j as int);
                }
                write_indent(ch, cur, out);
                push_char(out, '"');
                crate::render::write_escaped(o.entries[j].0.as_str(), out);
                push_char(out, '"');
                push_char(out, ':');
                push_char(out, ' ');
                let deeper = if cur <= usize::MAX - width {
                    cur + width
                } else {
                    usize::MAX
                };
                write_pretty(&o.entries[j].1, width, ch, deeper, true, out);
                if j + 1 < n {
                    push_char(out, ',');
                    push_char(out, '\n');
                }
                proof {
                    assert(ms.skip(j as int)[0] == ms[j as int]);
                    assert(ms.skip(j as int).drop_first() =~= ms.skip(j + 1));
                    if j + 1 < n {
                        assert(out@ + pretty_entries(ms.skip(j + 1), width as int, ch, cur as int)
                            =~= old(out)@ + seq!['{', '\n'] + pretty_entries(
                            ms,
                            width as int,
                            ch,
                            cur as int,
                        ));
                    } else {
                        assert(ms.skip(j + 1) =~= Seq::<(Seq<char>, Json)>::empty());
                        assert(out@ + pretty_entries(ms.skip(j + 1), width as int, ch, cur as int)
                            =~= old(out)@ + seq!['{', '\n'] + pretty_entries(
                            ms,
                            width as int,
                            ch,
                            cur as int,
                        ));
                    }
                }
                j = j + 1;
            }
            proof {
                assert(ms.skip(n as int) =~= Seq::<(Seq<char>, Json)>::empty());
            }
            push_char(out, '\n');
            if child {
                write_indent(ch, cur - width, out);
            }
            push_char(out, '}');
            proof {
                assert(out@ =~= old(out)@ + pretty_value(v@, width as int, ch, cur as int, child));
            }
        },
    }
}

} // verus!
