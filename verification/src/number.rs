//! Exact decimal numbers for the document model.
//!
//! A JSON number is kept as a sign, a sequence of significant decimal digits
//! and a base-ten exponent, so that whole-number checks, range checks and
//! textual rendering are exact.  The representation is canonical: the digit
//! sequence never starts or ends with a zero digit, and the number zero is
//! the empty digit sequence with a positive sign and exponent zero.

use vstd::prelude::*;

verus! {

/// Largest magnitude the exponent may take; parsing saturates here.
pub const EXP_LIMIT: i64 = 1_000_000_000_000_000;

/// `u128::MAX / 10`, the last accumulator value that can take another digit.
pub const ACC_LIMIT: u128 = 34_028_236_692_093_846_346_337_460_743_176_821_145;

/// Mathematical model of a number: (-1)^neg * (digits as an integer) * 10^exp.
pub struct NumModel {
    pub neg: bool,
    pub digits: Seq<u8>,
    pub exp: int,
}

/// The digit sequence is made of decimal digits and, when non-empty, starts
/// and ends with a non-zero digit.
pub open spec fn digits_wf(digits: Seq<u8>) -> bool {
    &&& forall|i: int| 0 <= i < digits.len() ==> digits[i] < 10
    &&& digits.len() > 0 ==> digits[0] != 0 && digits[digits.len() - 1] != 0
}

/// Canonical form: well-formed digits, zero is (false, empty, 0), and the
/// exponent stays within the saturation bound.
pub open spec fn num_wf(n: NumModel) -> bool {
    &&& digits_wf(n.digits)
    &&& n.digits.len() == 0 ==> (!n.neg && n.exp == 0)
    &&& -(EXP_LIMIT as int) <= n.exp <= EXP_LIMIT as int
}

/// The integer a digit sequence denotes, most significant digit first.
pub open spec fn digits_val(s: Seq<u8>) -> int
    decreases s.len(),
{
    if s.len() == 0 {
        0
    } else {
        digits_val(s.drop_last()) * 10 + s.last()
    }
}

pub open spec fn pow10(e: nat) -> int
    decreases e,
{
    if e == 0 {
        1
    } else {
        10 * pow10((e - 1) as nat)
    }
}

/// A number is whole when it is zero or its exponent is not negative.
pub open spec fn num_is_int(n: NumModel) -> bool {
    n.digits.len() == 0 || n.exp >= 0
}

/// The integer value of a whole number.
pub open spec fn num_int_val(n: NumModel) -> int {
    if n.digits.len() == 0 {
        0
    } else {
        let mag = digits_val(n.digits) * pow10(n.exp as nat);
        if n.neg {
            -mag
        } else {
            mag
        }
    }
}

pub open spec fn clamp_exp(e: int) -> int {
    if e > EXP_LIMIT as int {
        EXP_LIMIT as int
    } else if e < -(EXP_LIMIT as int) {
        -(EXP_LIMIT as int)
    } else {
        e
    }
}

/// How many zero digits the sequence ends with.
pub open spec fn trailing_zeros(s: Seq<u8>) -> int
    decreases s.len(),
{
    if s.len() == 0 || s.last() != 0 {
        0
    } else {
        1 + trailing_zeros(s.drop_last())
    }
}

/// How many zero digits the sequence starts with.
pub open spec fn leading_zeros(s: Seq<u8>) -> int
    decreases s.len(),
{
    if s.len() == 0 || s[0] != 0 {
        0
    } else {
        1 + leading_zeros(s.drop_first())
    }
}

/// The canonical number denoted by raw digits `ds` times `10^e`, negative
/// when `neg`.  Trailing zero digits move into the exponent, leading zero
/// digits are dropped, and zero itself becomes the canonical zero.
pub open spec fn norm_num(neg: bool, ds: Seq<u8>, e: int) -> NumModel {
    let t = trailing_zeros(ds);
    let l = leading_zeros(ds);
    if l == ds.len() {
        NumModel { neg: false, digits: Seq::empty(), exp: 0 }
    } else {
        NumModel { neg, digits: ds.subrange(l, ds.len() - t), exp: clamp_exp(e + t) }
    }
}

/// The decimal digits of a non-negative integer, most significant first;
/// zero has no digits.
pub open spec fn int_digits(m: nat) -> Seq<u8>
    decreases m,
{
    if m == 0 {
        Seq::empty()
    } else {
        int_digits(m / 10).push((m % 10) as u8)
    }
}

/// The canonical model of an integer.
pub open spec fn num_of_int(x: int) -> NumModel {
    if x < 0 {
        norm_num(true, int_digits((-x) as nat), 0)
    } else {
        norm_num(false, int_digits(x as nat), 0)
    }
}

/// Rendering: the digit `d` as a character.
pub open spec fn digit_char(d: u8) -> char {
    ((d + 0x30) as u8) as char
}

pub open spec fn digit_chars(s: Seq<u8>) -> Seq<char> {
    s.map_values(|d: u8| digit_char(d))
}

pub open spec fn zero_chars(k: int) -> Seq<char> {
    Seq::new(if k < 0 { 0 } else { k as nat }, |i: int| '0')
}

/// The textual form of a number: plain decimal notation, integers without
/// a point, no exponent notation.
pub open spec fn render_num(n: NumModel) -> Seq<char> {
    if n.digits.len() == 0 {
        seq!['0']
    } else {
        let sign: Seq<char> = if n.neg {
            seq!['-']
        } else {
            Seq::empty()
        };
        if n.exp >= 0 {
            sign + digit_chars(n.digits) + zero_chars(n.exp)
        } else {
            let k = n.digits.len() + n.exp;
            if k > 0 {
                sign + digit_chars(n.digits.take(k)) + seq!['.'] + digit_chars(n.digits.skip(k))
            } else {
                sign + seq!['0', '.'] + zero_chars(-k) + digit_chars(n.digits)
            }
        }
    }
}

/// The magnitude of a whole number (meaningful when `num_is_int`).
pub open spec fn num_abs_val(n: NumModel) -> int {
    digits_val(n.digits) * pow10(
        if n.exp >= 0 {
            n.exp as nat
        } else {
            0
        },
    )
}

pub proof fn lemma_pow10_pos(e: nat)
    ensures
        pow10(e) >= 1,
    decreases e,
{
    if e > 0 {
        lemma_pow10_pos((e - 1) as nat);
    }
}

pub proof fn lemma_pow10_add(a: nat, b: nat)
    ensures
        pow10(a + b) == pow10(a) * pow10(b),
    decreases a,
{
    if a == 0 {
    } else {
        lemma_pow10_add((a - 1) as nat, b);
        assert(pow10(a + b) == 10 * pow10((a - 1) as nat + b));
        assert(10 * (pow10((a - 1) as nat) * pow10(b)) == (10 * pow10((a - 1) as nat)) * pow10(
            b,
        )) by (nonlinear_arith);
    }
}

pub proof fn lemma_digits_val_nonneg(s: Seq<u8>)
    ensures
        digits_val(s) >= 0,
    decreases s.len(),
{
    if s.len() > 0 {
        lemma_digits_val_nonneg(s.drop_last());
    }
}


pub proof fn lemma_digits_val_lower(s: Seq<u8>)
    requires
        s.len() > 0,
        s[0] != 0,
    ensures
        digits_val(s) >= pow10((s.len() - 1) as nat),
    decreases s.len(),
{
    if s.len() > 1 {
        assert(s.drop_last()[0] == s[0]);
        lemma_digits_val_lower(s.drop_last());
        assert(pow10((s.len() - 1) as nat) == 10 * pow10((s.len() - 2) as nat));
        assert(digits_val(s) == digits_val(s.drop_last()) * 10 + s.last());
    } else {
        assert(s.last() == s[0]);
        assert(s.drop_last() =~= Seq::<u8>::empty());
        assert(digits_val(Seq::<u8>::empty()) == 0);
        assert(digits_val(s) == s[0]);
        assert(pow10(0) == 1);
    }
}

/// Taking one more digit multiplies the prefix value by ten and adds it.
pub proof fn lemma_digits_val_take_step(s: Seq<u8>, i: int)
    requires
        0 <= i < s.len(),
    ensures
        digits_val(s.take(i + 1)) == digits_val(s.take(i)) * 10 + s[i],
{
    assert(s.take(i + 1).drop_last() =~= s.take(i));
    assert(s.take(i + 1).last() == s[i]);
}

/// Splitting a digit string: the whole value from a prefix and a suffix.
pub proof fn lemma_digits_val_split(s: Seq<u8>, i: int)
    requires
        0 <= i <= s.len(),
    ensures
        digits_val(s) == digits_val(s.take(i)) * pow10((s.len() - i) as nat) + digits_val(
            s.skip(i),
        ),
    decreases s.len() - i,
{
    if i == s.len() {
        assert(s.take(i) =~= s);
        assert(s.skip(i) =~= Seq::<u8>::empty());
        assert(pow10(0) == 1);
        assert(digits_val(Seq::<u8>::empty()) == 0);
    } else {
        lemma_digits_val_split(s, i + 1);
        lemma_digits_val_take_step(s, i);
        assert(s.skip(i) =~= seq![s[i]] + s.skip(i + 1));
        lemma_digits_val_prepend(s[i], s.skip(i + 1));
        let p = pow10((s.len() - i - 1) as nat);
        assert(s.skip(i + 1).len() == s.len() - i - 1);
        assert((digits_val(s.take(i)) * 10 + s[i]) * p == digits_val(s.take(i)) * (10 * p) + s[i]
            * p) by (nonlinear_arith);
        assert(pow10((s.len() - i) as nat) == 10 * p);
    }
}

/// Prepending a digit adds it scaled by the length of the rest.
pub proof fn lemma_digits_val_prepend(d: u8, s: Seq<u8>)
    ensures
        digits_val(seq![d] + s) == d * pow10(s.len()) + digits_val(s),
    decreases s.len(),
{
    if s.len() == 0 {
        assert(seq![d] + s =~= seq![d]);
        assert(seq![d].drop_last() =~= Seq::<u8>::empty());
        assert(seq![d].last() == d);
        assert(pow10(0) == 1);
        assert(digits_val(Seq::<u8>::empty()) == 0);
        assert(digits_val(seq![d]) == d);
    } else {
        assert((seq![d] + s).drop_last() =~= seq![d] + s.drop_last());
        lemma_digits_val_prepend(d, s.drop_last());
        let p = pow10((s.len() - 1) as nat);
        assert((seq![d] + s).last() == s.last());
        assert(pow10(s.len()) == 10 * p);
        assert((d * p + digits_val(s.drop_last())) * 10 == d * (10 * p) + digits_val(s.drop_last())
            * 10) by (nonlinear_arith);
    }
}

/// Stripping the trailing zero digits divides out a power of ten.
pub proof fn lemma_strip_trailing(s: Seq<u8>)
    ensures
        0 <= trailing_zeros(s) <= s.len(),
        digits_val(s) == digits_val(s.take(s.len() - trailing_zeros(s))) * pow10(
            trailing_zeros(s) as nat,
        ),
    decreases s.len(),
{
    if s.len() == 0 || s.last() != 0 {
        assert(s.take(s.len() - 0) =~= s);
        assert(pow10(0) == 1);
    } else {
        lemma_strip_trailing(s.drop_last());
        let t = trailing_zeros(s.drop_last());
        assert(trailing_zeros(s) == 1 + t);
        assert(s.drop_last().take(s.len() - 1 - t) =~= s.take(s.len() - (t + 1)));
        assert(s.last() == 0);
        assert(digits_val(s) == digits_val(s.drop_last()) * 10);
        assert(pow10((t + 1) as nat) == 10 * pow10(t as nat));
        let a = digits_val(s.take(s.len() - (t + 1)));
        assert((a * pow10(t as nat)) * 10 == a * (10 * pow10(t as nat))) by (nonlinear_arith);
    }
}

/// A leading zero digit does not change the value.
pub proof fn lemma_drop_leading_zero(s: Seq<u8>)
    requires
        s.len() > 0,
        s[0] == 0,
    ensures
        digits_val(s) == digits_val(s.drop_first()),
    decreases s.len(),
{
    if s.len() == 1 {
        assert(s.drop_last() =~= Seq::<u8>::empty());
        assert(s.drop_first() =~= Seq::<u8>::empty());
        assert(s.last() == s[0]);
    } else {
        lemma_drop_leading_zero(s.drop_last());
        assert(s.drop_last().drop_first() =~= s.drop_first().drop_last());
        assert(s.drop_first().last() == s.last());
        assert(s.drop_last()[0] == 0);
    }
}

pub proof fn lemma_trailing_lt_len(s: Seq<u8>)
    requires
        s.len() > 0,
        s[0] != 0,
    ensures
        0 <= trailing_zeros(s) < s.len(),
    decreases s.len(),
{
    if s.last() == 0 {
        lemma_trailing_lt_len(s.drop_last());
    }
}

/// The decimal digits of an integer really denote it.
pub proof fn lemma_int_digits(m: nat)
    ensures
        forall|i: int| 0 <= i < int_digits(m).len() ==> int_digits(m)[i] < 10,
        digits_val(int_digits(m)) == m,
        m > 0 ==> int_digits(m).len() > 0 && int_digits(m)[0] != 0,
        m == 0 ==> int_digits(m).len() == 0,
    decreases m,
{
    if m > 0 {
        lemma_int_digits(m / 10);
        assert(int_digits(m).drop_last() =~= int_digits(m / 10));
    }
}

/// Digit strings bounded by `u128::MAX` have at most 39 digits.
pub proof fn lemma_len_le_39(s: Seq<u8>)
    requires
        s.len() > 0,
        s[0] != 0,
        digits_val(s) <= u128::MAX as int,
    ensures
        s.len() <= 39,
{
    if s.len() > 39 {
        lemma_digits_val_lower(s);
        lemma_pow10_mono(39, (s.len() - 1) as nat);
        assert(pow10(39) > u128::MAX as int) by {
            reveal_with_fuel(pow10, 41);
        }
    }
}

pub proof fn lemma_pow10_mono(a: nat, b: nat)
    requires
        a <= b,
    ensures
        pow10(a) <= pow10(b),
    decreases b,
{
    if a < b {
        lemma_pow10_mono(a, (b - 1) as nat);
        lemma_pow10_pos((b - 1) as nat);
    }
}

/// `num_of_int` is canonical, whole, and denotes its argument.
pub proof fn lemma_num_of_int_val(x: int)
    requires
        -(u128::MAX as int) <= x <= u128::MAX as int,
    ensures
        num_wf(num_of_int(x)),
        num_is_int(num_of_int(x)),
        num_int_val(num_of_int(x)) == x,
{
    let m = if x < 0 {
        (-x) as nat
    } else {
        x as nat
    };
    let neg = x < 0;
    lemma_int_digits(m);
    let ds = int_digits(m);
    if m == 0 {
        assert(leading_zeros(ds) == 0);
    } else {
        assert(leading_zeros(ds) == 0);
        lemma_trailing_lt_len(ds);
        lemma_strip_trailing(ds);
        lemma_len_le_39(ds);
        let t = trailing_zeros(ds);
        let kept = ds.subrange(0, ds.len() - t);
        assert(kept =~= ds.take(ds.len() - t));
        assert(clamp_exp(0 + t) == t);
        assert(kept[0] == ds[0]);
        assert(forall|i: int| 0 <= i < kept.len() ==> kept[i] < 10);
        lemma_take_strip_last_nonzero(ds);
        assert(kept[kept.len() - 1] != 0);
        lemma_digits_val_nonneg(kept);
        assert(num_of_int(x).digits == kept);
        assert(num_of_int(x).exp == t);
        assert(num_int_val(num_of_int(x)) == x || num_int_val(num_of_int(x)) == -x);
    }
}

/// After stripping the trailing zeros, the last kept digit is non-zero.
pub proof fn lemma_take_strip_last_nonzero(s: Seq<u8>)
    requires
        trailing_zeros(s) < s.len(),
    ensures
        s.take(s.len() - trailing_zeros(s)).last() != 0,
    decreases s.len(),
{
    if s.last() == 0 {
        lemma_strip_trailing(s.drop_last());
        lemma_take_strip_last_nonzero(s.drop_last());
        let t = trailing_zeros(s.drop_last());
        assert(trailing_zeros(s) == 1 + t);
        assert(s.drop_last().take(s.len() - 1 - t) =~= s.take(s.len() - (t + 1)));
    } else {
        assert(s.take(s.len() - 0) =~= s);
    }
}

/// An exact decimal number: (-1)^neg * digits * 10^exp.
#[derive(Debug)]
pub struct JsonNumber {
    pub(crate) neg: bool,
    pub(crate) digits: Vec<u8>,
    pub(crate) exp: i64,
}

impl View for JsonNumber {
    type V = NumModel;

    open(crate) spec fn view(&self) -> NumModel {
        NumModel { neg: self.neg, digits: self.digits@, exp: self.exp as int }
    }
}

impl JsonNumber {
    /// Every number built or parsed by this crate is canonical.
    pub open spec fn wf(&self) -> bool {
        num_wf(self@)
    }

    /// The decimal digits of `m`, most significant first; none for zero.
    pub(crate) fn digit_vec(m: u128) -> (r: Vec<u8>)
        ensures
            r@ == int_digits(m as nat),
        decreases m,
    {
        if m == 0 {
            Vec::new()
        } else {
            let mut v = Self::digit_vec(m / 10);
            v.push((m % 10) as u8);
            v
        }
    }

    /// The canonical number of magnitude `m`, negative when `neg`.
    pub fn from_magnitude(neg: bool, m: u128) -> (r: JsonNumber)
        ensures
            r@ == num_of_int(
                if neg {
                    -(m as int)
                } else {
                    m as int
                },
            ),
            r.wf(),
    {
        proof {
            lemma_int_digits(m as nat);
        }
        let mut ds = Self::digit_vec(m);
        if ds.len() == 0 {
            proof {
                assert(leading_zeros(int_digits(m as nat)) == 0);
            }
            return JsonNumber { neg: false, digits: ds, exp: 0 };
        }
        let ghost orig = ds@;
        let mut t: i64 = 0;
        proof {
            lemma_trailing_lt_len(orig);
            lemma_len_le_39(orig);
            lemma_strip_trailing(orig);
            assert(orig.take(orig.len() - 0) =~= orig);
        }
        while ds.len() > 0 && ds[ds.len() - 1] == 0
            invariant
                0 <= t <= trailing_zeros(orig),
                ds@ == orig.take(orig.len() - t),
                trailing_zeros(orig) == t + trailing_zeros(ds@),
                orig.len() > 0 && orig[0] != 0,
                orig.len() <= 39,
                trailing_zeros(orig) < orig.len(),
                forall|i: int| 0 <= i < orig.len() ==> orig[i] < 10,
            decreases ds@.len(),
        {
            proof {
                assert(ds@.last() == 0);
                lemma_strip_trailing(ds@.drop_last());
                assert(trailing_zeros(ds@) == 1 + trailing_zeros(ds@.drop_last()));
                assert(ds@.drop_last() =~= orig.take(orig.len() - (t + 1)));
            }
            ds.pop();
            t = t + 1;
        }
        proof {
            assert(trailing_zeros(ds@) == 0);
            assert(t == trailing_zeros(orig));
            assert(ds@ =~= orig.subrange(0, orig.len() - trailing_zeros(orig)));
            assert(leading_zeros(orig) == 0);
            lemma_trailing_lt_len(orig);
            lemma_len_le_39(orig);
            assert(clamp_exp(0 + t) == t);
            lemma_take_strip_last_nonzero(orig);
            assert(ds@[0] == orig[0]);
        }
        JsonNumber { neg, digits: ds, exp: t }
    }

    pub fn from_u64(x: u64) -> (r: JsonNumber)
        ensures
            r@ == num_of_int(x as int),
            r.wf(),
    {
        Self::from_magnitude(false, x as u128)
    }

    pub fn from_i64(x: i64) -> (r: JsonNumber)
        ensures
            r@ == num_of_int(x as int),
            r.wf(),
    {
        if x >= 0 {
            Self::from_magnitude(false, x as u128)
        } else {
            let m: u128 = ((-(x + 1)) as u128) + 1;
            Self::from_magnitude(true, m)
        }
    }

    pub fn from_u128(x: u128) -> (r: JsonNumber)
        ensures
            r@ == num_of_int(x as int),
            r.wf(),
    {
        Self::from_magnitude(false, x)
    }

    pub fn from_i128(x: i128) -> (r: JsonNumber)
        ensures
            r@ == num_of_int(x as int),
            r.wf(),
    {
        if x >= 0 {
            Self::from_magnitude(false, x as u128)
        } else {
            let m: u128 = ((-(x + 1)) as u128) + 1;
            Self::from_magnitude(true, m)
        }
    }

    /// Whether the number has no fractional part.
    pub fn is_whole(&self) -> (b: bool)
        ensures
            b == num_is_int(self@),
    {
        self.digits.len() == 0 || self.exp >= 0
    }

    pub fn is_negative(&self) -> (b: bool)
        ensures
            b == self@.neg,
    {
        self.neg
    }

    /// The magnitude of a whole number, or `None` when it exceeds `u128::MAX`.
    pub fn int_magnitude(&self) -> (r: Option<u128>)
        requires
            num_wf(self@),
            num_is_int(self@),
        ensures
            match r {
                Some(m) => m as int == num_abs_val(self@),
                None => num_abs_val(self@) > u128::MAX as int,
            },
    {
        let n = self.digits.len();
        if n == 0 {
            proof {
                lemma_pow10_pos(if self@.exp >= 0 {
                    self@.exp as nat
                } else {
                    0
                });
            }
            return Some(0);
        }
        let ghost s = self.digits@;
        let e = self.exp;
        let mut acc: u128 = 0;
        let mut i: usize = 0;
        while i < n
            invariant
                0 <= i <= n,
                n == s.len(),
                self.digits@ == s,
                num_wf(self@),
                num_is_int(self@),
                n > 0,
                e == self@.exp,
                acc as int == digits_val(s.take(i as int)),
            decreases n - i,
        {
            let d = self.digits[i];
            proof {
                lemma_digits_val_take_step(s, i as int);
            }
            if acc > ACC_LIMIT || (acc == ACC_LIMIT && d > 5) {
                proof {
                    lemma_overflow_implies_big(s, i as int, e as int, acc as int, d as int);
                }
                return None;
            }
            acc = acc * 10 + (d as u128);
            i = i + 1;
        }
        proof {
            assert(s.take(n as int) =~= s);
        }
        let mut j: i64 = 0;
        while j < e
            invariant
                0 <= j,
                e == self@.exp,
                e >= 0,
                num_wf(self@),
                self.digits@ == s,
                n == s.len(),
                n > 0,
                j <= e,
                acc as int == digits_val(s) * pow10(j as nat),
            decreases e - j,
        {
            if acc > ACC_LIMIT {
                proof {
                    lemma_exp_overflow_implies_big(s, e as int, j as int, acc as int);
                }
                return None;
            }
            proof {
                let p = pow10(j as nat);
                assert((digits_val(s) * p) * 10 == digits_val(s) * (10 * p)) by (nonlinear_arith);
            }
            acc = acc * 10;
            j = j + 1;
        }
        Some(acc)
    }
}

/// If one more digit would overflow the accumulator, the whole magnitude
/// exceeds `u128::MAX`.
proof fn lemma_overflow_implies_big(s: Seq<u8>, i: int, e: int, acc: int, d: int)
    requires
        0 <= i < s.len(),
        forall|k: int| 0 <= k < s.len() ==> s[k] < 10,
        e >= 0,
        acc == digits_val(s.take(i)),
        d == s[i],
        acc * 10 + d > u128::MAX as int,
    ensures
        digits_val(s) * pow10(e as nat) > u128::MAX as int,
{
    lemma_digits_val_take_step(s, i);
    lemma_digits_val_split(s, i + 1);
    lemma_digits_val_nonneg(s.skip(i + 1));
    lemma_digits_val_nonneg(s.take(i + 1));
    lemma_pow10_pos((s.len() - i - 1) as nat);
    let a = digits_val(s.take(i + 1));
    let p = pow10((s.len() - i - 1) as nat);
    assert(a * p >= a * 1) by (nonlinear_arith)
        requires
            a >= 0,
            p >= 1,
    ;
    lemma_digits_val_nonneg(s);
    lemma_pow10_pos(e as nat);
    let q = pow10(e as nat);
    let v = digits_val(s);
    assert(v * q >= v * 1) by (nonlinear_arith)
        requires
            v >= 0,
            q >= 1,
    ;
}

/// If scaling by ten would overflow the accumulator, the whole magnitude
/// exceeds `u128::MAX`.
proof fn lemma_exp_overflow_implies_big(s: Seq<u8>, e: int, j: int, acc: int)
    requires
        0 <= j < e,
        acc == digits_val(s) * pow10(j as nat),
        acc * 10 > u128::MAX as int,
        s.len() > 0,
        forall|k: int| 0 <= k < s.len() ==> s[k] < 10,
    ensures
        digits_val(s) * pow10(e as nat) > u128::MAX as int,
{
    lemma_pow10_add((j + 1) as nat, (e - j - 1) as nat);
    lemma_pow10_pos((e - j - 1) as nat);
    lemma_digits_val_nonneg(s);
    let v = digits_val(s);
    let pj = pow10(j as nat);
    let rest = pow10((e - j - 1) as nat);
    assert(pow10((j + 1) as nat) == 10 * pj);
    assert(v * pow10(e as nat) == v * (pow10((j + 1) as nat) * rest));
    assert(v * ((10 * pj) * rest) == ((v * pj) * 10) * rest) by (nonlinear_arith);
    let b = (v * pj) * 10;
    assert(b * rest >= b * 1) by (nonlinear_arith)
        requires
            b >= 0,
            rest >= 1,
    ;
    assert(b >= 0) by {
        lemma_pow10_pos(j as nat);
        assert(v * pj >= 0) by (nonlinear_arith)
            requires
                v >= 0,
                pj >= 1,
        ;
    }
}

/// Zero digit strings have as many leading as trailing zeros.
proof fn lemma_zero_digits(s: Seq<u8>)
    requires
        trailing_zeros(s) == s.len(),
    ensures
        leading_zeros(s) == s.len(),
    decreases s.len(),
{
    lemma_trailing_all_zero(s);
    lemma_leading_all_zero(s);
}

/// If every digit is zero, the leading-zero count is the whole length.
proof fn lemma_leading_all_zero(s: Seq<u8>)
    requires
        forall|k: int| 0 <= k < s.len() ==> s[k] == 0,
    ensures
        leading_zeros(s) == s.len(),
    decreases s.len(),
{
    if s.len() > 0 {
        assert(forall|k: int|
            0 <= k < s.drop_first().len() ==> #[trigger] s.drop_first()[k] == 0);
        lemma_leading_all_zero(s.drop_first());
    }
}

/// If the trailing-zero count is the whole length, every digit is zero.
proof fn lemma_trailing_all_zero(s: Seq<u8>)
    requires
        trailing_zeros(s) == s.len(),
    ensures
        forall|k: int| 0 <= k < s.len() ==> s[k] == 0,
    decreases s.len(),
{
    if s.len() > 0 {
        lemma_strip_trailing(s.drop_last());
        lemma_trailing_all_zero(s.drop_last());
        assert forall|k: int| 0 <= k < s.len() implies s[k] == 0 by {
            if k < s.len() - 1 {
                assert(s[k] == s.drop_last()[k]);
            } else {
                assert(s.last() == 0);
            }
        }
    }
}

/// The leading-zero count: zeros before it, a non-zero digit at it.
proof fn lemma_leading_char(s: Seq<u8>)
    ensures
        0 <= leading_zeros(s) <= s.len(),
        forall|k: int| 0 <= k < leading_zeros(s) ==> #[trigger] s[k] == 0,
        leading_zeros(s) < s.len() ==> s[leading_zeros(s)] != 0,
    decreases s.len(),
{
    if s.len() > 0 && s[0] == 0 {
        lemma_leading_char(s.drop_first());
        assert forall|k: int| 0 <= k < leading_zeros(s) implies #[trigger] s[k]
            == 0 by {
            if k >= 1 {
                assert(s[k] == s.drop_first()[k - 1]);
            }
        }
        if leading_zeros(s) < s.len() {
            assert(s[leading_zeros(s)] == s.drop_first()[leading_zeros(
                s,
            ) - 1]);
        }
    }
}

/// Taking a prefix that still holds a non-zero digit keeps the
/// leading-zero count.
proof fn lemma_leading_take(s: Seq<u8>, k: int)
    requires
        0 <= k <= s.len(),
        leading_zeros(s.take(k)) < k,
    ensures
        leading_zeros(s) == leading_zeros(s.take(k)),
{
    lemma_leading_char(s.take(k));
    lemma_leading_char(s);
    let lt = leading_zeros(s.take(k));
    let l = leading_zeros(s);
    assert(s.take(k)[lt] == s[lt]);
    if l < lt {
        assert(s.take(k)[l] == s[l]);
    }
    if l > lt {
        assert(s[lt] == 0);
    }
}

/// Builds the canonical number `(-1)^neg * ds * 10^e`.
pub(crate) fn normalize_parts(neg: bool, ds: Vec<u8>, e: i128) -> (r: JsonNumber)
    requires
        forall|k: int| 0 <= k < ds@.len() ==> ds@[k] < 10,
        -(EXP_LIMIT as i128) - (usize::MAX as i128) <= e <= EXP_LIMIT as i128,
    ensures
        r@ == norm_num(neg, ds@, e as int),
        r.wf(),
{
    let ghost orig = ds@;
    let mut ds = ds;
    let mut t: usize = 0;
    proof {
        assert(vstd::std_specs::vec::spec_vec_len(&ds) == ds@.len());
        assert(orig.take(orig.len() as int) =~= orig);
    }
    while ds.len() > 0 && ds[ds.len() - 1] == 0
        invariant
            0 <= t <= orig.len(),
            orig.len() <= usize::MAX,
            ds@ == orig.take(orig.len() - t),
            trailing_zeros(orig) == t + trailing_zeros(ds@),
            forall|k: int| 0 <= k < orig.len() ==> orig[k] < 10,
        decreases ds@.len(),
    {
        proof {
            assert(ds@.last() == 0);
            lemma_strip_trailing(ds@.drop_last());
            assert(trailing_zeros(ds@) == 1 + trailing_zeros(
                ds@.drop_last(),
            ));
            assert(ds@.drop_last() =~= orig.take(orig.len() - (t + 1)));
        }
        ds.pop();
        t = t + 1;
    }
    proof {
        assert(trailing_zeros(ds@) == 0);
        assert(t == trailing_zeros(orig));
    }
    if ds.len() == 0 {
        proof {
            assert(orig.take(orig.len() - t).len() == 0);
            assert(t == orig.len());
            lemma_zero_digits(orig);
            assert(leading_zeros(orig) == orig.len());
            assert(ds@ =~= Seq::<u8>::empty());
        }
        return JsonNumber { neg: false, digits: ds, exp: 0 };
    }
    // find the leading zeros
    let mut l: usize = 0;
    proof {
        lemma_leading_char(ds@);
    }
    while l < ds.len() && ds[l] == 0
        invariant
            0 <= l <= ds@.len(),
            ds@.len() > 0,
            ds@ == orig.take(orig.len() - t),
            ds@[ds@.len() - 1] != 0,
            forall|k: int| 0 <= k < l ==> ds@[k] == 0,
        decreases ds@.len() - l,
    {
        l = l + 1;
    }
    proof {
        lemma_leading_char(ds@);
        assert(l < ds@.len());
        assert(ds@[l as int] != 0);
        if (leading_zeros(ds@) as int) < l as int {
            assert(ds@[leading_zeros(ds@)] == 0);
        }
        assert(l as int == leading_zeros(ds@));
        lemma_leading_take(orig, orig.len() - t);
        assert(l as int == leading_zeros(orig));
    }
    // copy the kept digits
    let mut kept: Vec<u8> = Vec::new();
    let mut cur = l;
    while cur < ds.len()
        invariant
            l <= cur <= ds@.len(),
            kept@ =~= ds@.subrange(l as int, cur as int),
        decreases ds@.len() - cur,
    {
        let d = ds[cur];
        kept.push(d);
        proof {
            assert(kept@ =~= ds@.subrange(l as int, cur + 1));
        }
        cur = cur + 1;
    }
    proof {
        assert(kept@ =~= orig.subrange(l as int, orig.len() - t));
    }
    let ec: i128 = e + (t as i128);
    let exp: i64 = if ec > EXP_LIMIT as i128 {
        EXP_LIMIT
    } else if ec < -(EXP_LIMIT as i128) {
        -EXP_LIMIT
    } else {
        ec as i64
    };
    proof {
        assert(exp as int == clamp_exp(e as int + t as int));
        assert(kept@[0] == orig[l as int]);
        assert(kept@[kept@.len() - 1] == ds@[ds@.len() - 1]);
    }
    JsonNumber { neg, digits: kept, exp }
}


impl JsonNumber {
    /// Normalization used by the parser and the public constructor.
    pub(crate) fn normalize(neg: bool, ds: Vec<u8>, e: i128) -> (r: JsonNumber)
        requires
            forall|k: int| 0 <= k < ds@.len() ==> ds@[k] < 10,
            -(EXP_LIMIT as i128) - (usize::MAX as i128) <= e <= EXP_LIMIT as i128,
        ensures
            r@ == norm_num(neg, ds@, e as int),
            r.wf(),
    {
        normalize_parts(neg, ds, e)
    }

    /// The canonical number `(-1)^neg * digits * 10^exp`: trailing zero
    /// digits move into the exponent, leading zero digits are dropped,
    /// and zero becomes the canonical zero.
    pub fn from_parts(neg: bool, digits: Vec<u8>, exp: i64) -> (r: JsonNumber)
        requires
            forall|k: int| 0 <= k < digits@.len() ==> digits@[k] < 10,
            -EXP_LIMIT <= exp <= EXP_LIMIT,
        ensures
            r@ == norm_num(neg, digits@, exp as int),
            r.wf(),
    {
        Self::normalize(neg, digits, exp as i128)
    }
}

} // verus!
