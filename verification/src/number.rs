use vstd::prelude::*;
use vstd::string::*;

verus! {

// An engine number is modeled as an exact decimal value. Every binary
// floating-point value the engine can hold corresponds to exactly one
// shortest decimal rendering, so the boundary that owns engine handles
// converts losslessly between the two; inside the library the decimal
// form is the value itself. The special shapes (not-a-number, the two
// infinities, signed zero) are separate variants.

/// Spec-level nonzero finite decimal: value == (-1)^neg * digits * 10^scale,
/// with the digit sequence free of leading and trailing zeros.
pub struct DecSpec {
    pub neg: bool,
    pub digits: Seq<u8>,
    pub scale: int,
}

/// Spec-level engine number.
pub enum NumSpec {
    NaN,
    Infinite(bool),
    Zero(bool),
    Fin(DecSpec),
}

/// Bound on significant digits and on the decimal scale; keeps all
/// arithmetic on digit counts inside `i64`.
pub const DEC_LIMIT: u64 = 0x1000_0000;

pub open spec fn digits_wf(s: Seq<u8>) -> bool {
    forall|i: int| 0 <= i < s.len() ==> s[i] <= 9
}

/// The integer a digit sequence denotes, most significant digit first.
pub open spec fn digits_val(s: Seq<u8>) -> nat
    decreases s.len(),
{
    if s.len() == 0 {
        0
    } else {
        digits_val(s.drop_last()) * 10 + (s.last() as nat)
    }
}

pub open spec fn dec_spec_wf(d: DecSpec) -> bool {
    &&& d.digits.len() >= 1
    &&& digits_wf(d.digits)
    &&& d.digits[0] != 0
    &&& d.digits[d.digits.len() - 1] != 0
    &&& d.digits.len() < DEC_LIMIT
    &&& -(DEC_LIMIT as int) < d.scale < DEC_LIMIT as int
}

pub open spec fn num_spec_wf(n: NumSpec) -> bool {
    match n {
        NumSpec::Fin(d) => dec_spec_wf(d),
        _ => true,
    }
}

/// Nonzero finite decimal: value == (-1)^neg * digits * 10^scale.
#[derive(Debug, Clone, PartialEq)]
pub struct Dec {
    pub neg: bool,
    pub digits: Vec<u8>,
    pub scale: i64,
}

/// An engine number: not-a-number, an infinity, a signed zero, or a
/// nonzero finite decimal.
#[derive(Debug, Clone, PartialEq)]
pub enum JsNumber {
    NaN,
    Infinite(bool),
    Zero(bool),
    Fin(Dec),
}

impl DeepView for Dec {
    type V = DecSpec;

    open spec fn deep_view(&self) -> DecSpec {
        DecSpec { neg: self.neg, digits: self.digits@, scale: self.scale as int }
    }
}

impl DeepView for JsNumber {
    type V = NumSpec;

    open spec fn deep_view(&self) -> NumSpec {
        match self {
            JsNumber::NaN => NumSpec::NaN,
            JsNumber::Infinite(neg) => NumSpec::Infinite(*neg),
            JsNumber::Zero(neg) => NumSpec::Zero(*neg),
            JsNumber::Fin(d) => NumSpec::Fin(d.deep_view()),
        }
    }
}

impl JsNumber {
    pub open spec fn wf(&self) -> bool {
        num_spec_wf(self.deep_view())
    }
}

// ---------------------------------------------------------------------------
// Digit sequences of unsigned integers.

/// Decimal digits of `n`, most significant first; `0` is a single digit.
pub open spec fn digits_of(n: nat) -> Seq<u8>
    decreases n,
{
    if n < 10 {
        seq![n as u8]
    } else {
        digits_of(n / 10).push((n % 10) as u8)
    }
}

pub proof fn lemma_digits_of_wf(n: nat)
    ensures
        digits_wf(digits_of(n)),
        digits_of(n).len() >= 1,
        digits_of(n)[0] == if n < 10 { n as u8 } else { digits_of(n / 10)[0] },
        n >= 1 ==> digits_of(n)[0] != 0,
        digits_of(n).last() == (n % 10) as u8,
        digits_val(digits_of(n)) == n,
    decreases n,
{
    if n < 10 {
        let s = digits_of(n);
        assert(s =~= seq![n as u8]);
        assert(s.drop_last() =~= Seq::<u8>::empty());
        assert(digits_val(Seq::<u8>::empty()) == 0);
        assert(digits_val(s) == digits_val(s.drop_last()) * 10 + (s.last() as nat));
    } else {
        lemma_digits_of_wf(n / 10);
        let s = digits_of(n);
        assert(s.drop_last() =~= digits_of(n / 10));
        assert(digits_val(s) == digits_val(digits_of(n / 10)) * 10 + (n % 10));
    }
}

/// Appends the decimal digits of `n`, most significant first.
pub fn push_digits(n: u64, out: &mut Vec<u8>)
    ensures
        final(out)@ == old(out)@ + digits_of(n as nat),
    decreases n,
{
    if n < 10 {
        out.push(n as u8);
        assert(out@ =~= old(out)@ + digits_of(n as nat));
    } else {
        push_digits(n / 10, out);
        out.push((n % 10) as u8);
        assert(out@ =~= old(out)@ + digits_of(n as nat));
    }
}

// ---------------------------------------------------------------------------
// Building numbers from machine integers.

/// The engine number denoting the integer `i`.
pub open spec fn spec_num_of_int(i: int) -> NumSpec {
    if i == 0 {
        NumSpec::Zero(false)
    } else {
        let mag = if i < 0 { -i } else { i };
        NumSpec::Fin(spec_dec_of_mag(i < 0, mag as nat))
    }
}

/// Canonical nonzero decimal of a positive magnitude: trailing zeros of the
/// digit string move into the scale.
pub open spec fn spec_dec_of_mag(neg: bool, mag: nat) -> DecSpec
    decreases mag,
{
    if mag % 10 == 0 && mag > 0 {
        let inner = spec_dec_of_mag(neg, mag / 10);
        DecSpec { neg: inner.neg, digits: inner.digits, scale: inner.scale + 1 }
    } else {
        DecSpec { neg, digits: digits_of(mag), scale: 0 }
    }
}

pub proof fn lemma_pow10_increases(a: nat, b: nat)
    requires
        a <= b,
    ensures
        pow10(a) <= pow10(b),
        pow10(a) >= 1,
    decreases b,
{
    if b > 0 {
        if a == b {
            lemma_pow10_increases((a - 1) as nat, (b - 1) as nat);
        } else {
            lemma_pow10_increases(a, (b - 1) as nat);
        }
    }
}

pub proof fn lemma_dec_of_mag_wf(neg: bool, mag: nat)
    requires
        1 <= mag < 0x1_0000_0000_0000_0000,
    ensures
        dec_spec_wf(spec_dec_of_mag(neg, mag)),
        spec_dec_of_mag(neg, mag).neg == neg,
        0 <= spec_dec_of_mag(neg, mag).scale <= 19,
        pow10(spec_dec_of_mag(neg, mag).scale as nat) <= mag,
    decreases mag,
{
    assert(pow10(20) == 0x5_6BC7_5E2D_6310_0000) by {
        reveal_with_fuel(pow10, 21);
    }
    if mag % 10 == 0 {
        lemma_dec_of_mag_wf(neg, mag / 10);
        let inner = spec_dec_of_mag(neg, mag / 10);
        assert(pow10((inner.scale + 1) as nat) == 10 * pow10(inner.scale as nat));
        assert(10 * pow10(inner.scale as nat) <= 10 * (mag / 10));
        if inner.scale + 1 > 19 {
            lemma_pow10_increases(20, (inner.scale + 1) as nat);
        }
    } else {
        lemma_digits_of_wf(mag);
        assert(digits_of(mag).len() < 21) by {
            lemma_digits_len_le(mag, 20);
        }
    }
}

/// A value below 10^k has at most k digits (for k >= 1).
pub proof fn lemma_digits_len_le(n: nat, k: nat)
    requires
        k >= 1,
        n < pow10(k),
    ensures
        digits_of(n).len() <= k,
    decreases n,
{
    if n < 10 {
    } else {
        assert(pow10(k) == 10 * pow10((k - 1) as nat));
        lemma_digits_len_le(n / 10, (k - 1) as nat);
    }
}

pub open spec fn pow10(e: nat) -> nat
    decreases e,
{
    if e == 0 {
        1
    } else {
        10 * pow10((e - 1) as nat)
    }
}

/// The engine number for a signed 64-bit integer.
pub fn num_of_i64(i: i64) -> (r: JsNumber)
    ensures
        r.deep_view() == spec_num_of_int(i as int),
        r.wf(),
{
    if i == 0 {
        JsNumber::Zero(false)
    } else {
        let neg: bool = i < 0;
        let mag: u64 = if i < 0 { (-(i as i128)) as u64 } else { i as u64 };
        proof {
            lemma_dec_of_mag_wf(neg, mag as nat);
        }
        JsNumber::Fin(dec_of_mag(neg, mag))
    }
}

/// The engine number for an unsigned 32-bit integer.
pub fn num_of_u32(u: u32) -> (r: JsNumber)
    ensures
        r.deep_view() == spec_num_of_int(u as int),
        r.wf(),
{
    if u == 0 {
        JsNumber::Zero(false)
    } else {
        proof {
            lemma_dec_of_mag_wf(false, u as nat);
        }
        JsNumber::Fin(dec_of_mag(false, u as u64))
    }
}

// ---------------------------------------------------------------------------
// Magnitude bounds.

/// A digit sequence denotes a value below 10^len.
pub proof fn lemma_digits_val_upper(s: Seq<u8>)
    requires
        digits_wf(s),
    ensures
        digits_val(s) < pow10(s.len()),
    decreases s.len(),
{
    if s.len() == 0 {
    } else {
        lemma_digits_val_upper(s.drop_last());
        assert(pow10(s.len()) == 10 * pow10((s.len() - 1) as nat));
    }
}

/// A digit sequence with a nonzero leading digit denotes at least 10^(len-1).
pub proof fn lemma_digits_val_lower(s: Seq<u8>)
    requires
        digits_wf(s),
        s.len() >= 1,
        s[0] != 0,
    ensures
        digits_val(s) >= pow10((s.len() - 1) as nat),
    decreases s.len(),
{
    if s.len() == 1 {
        assert(s.drop_last() =~= Seq::<u8>::empty());
    } else {
        lemma_digits_val_lower(s.drop_last());
        assert(pow10((s.len() - 1) as nat) == 10 * pow10((s.len() - 2) as nat));
    }
}

/// Splitting a digit sequence splits its value positionally.
pub proof fn lemma_digits_val_append(a: Seq<u8>, b: Seq<u8>)
    ensures
        digits_val(a + b) == digits_val(a) * pow10(b.len()) + digits_val(b),
    decreases b.len(),
{
    if b.len() == 0 {
        assert(a + b =~= a);
        assert(pow10(0) == 1);
        assert(digits_val(a) * 1 == digits_val(a));
    } else {
        lemma_digits_val_append(a, b.drop_last());
        assert((a + b).drop_last() =~= a + b.drop_last());
        assert((a + b).last() == b.last());
        assert(pow10(b.len()) == 10 * pow10((b.len() - 1) as nat));
        assert(digits_val(a) * (10 * pow10((b.len() - 1) as nat)) == (digits_val(a) * pow10(
            (b.len() - 1) as nat,
        )) * 10) by (nonlinear_arith);
    }
}

// ---------------------------------------------------------------------------
// The integer shapes the engine reports, and 32-bit conversion.

/// Magnitude of an integral decimal (one with a nonnegative scale).
pub open spec fn dec_int_mag(d: DecSpec) -> nat {
    digits_val(d.digits) * pow10(d.scale as nat)
}

/// Whether the engine reports this number as a signed 32-bit integer.
pub open spec fn num_is_int32(n: NumSpec) -> bool {
    match n {
        NumSpec::Zero(neg) => !neg,
        NumSpec::Fin(d) => d.scale >= 0 && (if d.neg {
            dec_int_mag(d) <= 0x8000_0000
        } else {
            dec_int_mag(d) < 0x8000_0000
        }),
        _ => false,
    }
}

/// Whether the engine reports this number as an unsigned 32-bit integer.
pub open spec fn num_is_uint32(n: NumSpec) -> bool {
    match n {
        NumSpec::Zero(neg) => !neg,
        NumSpec::Fin(d) => d.scale >= 0 && !d.neg && dec_int_mag(d) < 0x1_0000_0000,
        _ => false,
    }
}

/// The signed 32-bit value of a number that the engine reports as one.
pub open spec fn num_int32_val(n: NumSpec) -> i32 {
    match n {
        NumSpec::Fin(d) => if d.neg {
            (-(dec_int_mag(d) as int)) as i32
        } else {
            dec_int_mag(d) as i32
        },
        _ => 0,
    }
}

/// The unsigned 32-bit value of a number that the engine reports as one.
pub open spec fn num_uint32_val(n: NumSpec) -> u32 {
    match n {
        NumSpec::Fin(d) => dec_int_mag(d) as u32,
        _ => 0,
    }
}

/// Exact magnitude of an integral decimal when it is at most `u32::MAX`.
#[verifier::rlimit(100)]
pub fn dec_small_mag(d: &Dec) -> (r: Option<u64>)
    requires
        dec_spec_wf(d.deep_view()),
    ensures
        match r {
            Some(m) => d.scale >= 0 && m == dec_int_mag(d.deep_view()) && m <= 0xFFFF_FFFF,
            None => d.scale < 0 || dec_int_mag(d.deep_view()) > 0xFFFF_FFFF,
        },
{
    proof {
        reveal_with_fuel(pow10, 12);
    }
    if d.scale < 0 {
        return None;
    }
    let len = d.digits.len();
    if len as u64 + d.scale as u64 > 10 {
        proof {
            let dv = d.deep_view();
            lemma_digits_val_lower(dv.digits);
            lemma_pow10_increases(0, dv.scale as nat);
            lemma_pow10_increases(10, (len + dv.scale - 1) as nat);
            assert(digits_val(dv.digits) * pow10(dv.scale as nat) >= pow10((len - 1) as nat)
                * pow10(dv.scale as nat)) by (nonlinear_arith)
                requires
                    digits_val(dv.digits) >= pow10((len - 1) as nat),
                    pow10(dv.scale as nat) >= 1,
            ;
            lemma_pow10_mul((len - 1) as nat, dv.scale as nat);
        }
        return None;
    }
    let mut acc: u64 = 0;
    let mut i: usize = 0;
    while i < len
        invariant
            i <= len,
            len as int + d.scale <= 10,
            0 <= d.scale,
            dec_spec_wf(d.deep_view()),
            len == d.digits@.len(),
            acc == digits_val(d.digits@.subrange(0, i as int)),
            acc < pow10(i as nat),
        decreases len - i,
    {
        proof {
            reveal_with_fuel(pow10, 12);
            lemma_pow10_increases(i as nat, 9);
            assert(d.digits@.subrange(0, (i + 1) as int).drop_last() =~= d.digits@.subrange(
                0,
                i as int,
            ));
        }
        acc = acc * 10 + (d.digits[i] as u64);
        proof {
            assert(pow10((i + 1) as nat) == 10 * pow10(i as nat));
        }
        i = i + 1;
    }
    proof {
        assert(d.digits@.subrange(0, len as int) =~= d.digits@);
        assert(pow10(0) == 1);
        assert(digits_val(d.digits@) * 1 == digits_val(d.digits@));
    }
    let mut j: u64 = 0;
    let sc: u64 = d.scale as u64;
    while j < sc
        invariant
            j <= sc,
            sc as int == d.scale as int,
            len as int + d.scale <= 10,
            len >= 1,
            acc == digits_val(d.digits@) * pow10(j as nat),
            acc < pow10((len + j) as nat),
        decreases sc - j,
    {
        proof {
            reveal_with_fuel(pow10, 12);
            lemma_pow10_increases((len + j) as nat, 9);
            assert(pow10((j + 1) as nat) == 10 * pow10(j as nat));
            assert(digits_val(d.digits@) * (10 * pow10(j as nat)) == (digits_val(d.digits@)
                * pow10(j as nat)) * 10) by (nonlinear_arith);
            assert(pow10((len + j + 1) as nat) == 10 * pow10((len + j) as nat));
        }
        acc = acc * 10;
        j = j + 1;
    }
    if acc > 0xFFFF_FFFF {
        None
    } else {
        Some(acc)
    }
}

/// The signed 32-bit value, when the engine reports the number as one.
pub fn int32_checked(n: &JsNumber) -> (r: Option<i32>)
    requires
        n.wf(),
    ensures
        match r {
            Some(v) => num_is_int32(n.deep_view()) && v == num_int32_val(n.deep_view()),
            None => !num_is_int32(n.deep_view()),
        },
{
    match n {
        JsNumber::Zero(neg) => if *neg {
            None
        } else {
            Some(0)
        },
        JsNumber::Fin(d) => {
            match dec_small_mag(d) {
                Some(m) => {
                    if d.neg {
                        if m <= 0x8000_0000 {
                            Some((-(m as i64)) as i32)
                        } else {
                            None
                        }
                    } else {
                        if m < 0x8000_0000 {
                            Some(m as i32)
                        } else {
                            None
                        }
                    }
                },
                None => None,
            }
        },
        _ => None,
    }
}

/// The unsigned 32-bit value, when the engine reports the number as one.
pub fn uint32_checked(n: &JsNumber) -> (r: Option<u32>)
    requires
        n.wf(),
    ensures
        match r {
            Some(v) => num_is_uint32(n.deep_view()) && v == num_uint32_val(n.deep_view()),
            None => !num_is_uint32(n.deep_view()),
        },
{
    match n {
        JsNumber::Zero(neg) => if *neg {
            None
        } else {
            Some(0)
        },
        JsNumber::Fin(d) => {
            if d.neg {
                None
            } else {
                match dec_small_mag(d) {
                    Some(m) => Some(m as u32),
                    None => None,
                }
            }
        },
        _ => None,
    }
}

// ---------------------------------------------------------------------------
// The engine's 32-bit wrapping conversion: truncate toward zero, then reduce
// modulo 2^32 into the signed range.

/// Truncation toward zero of the magnitude of a nonzero finite decimal.
pub open spec fn dec_trunc_abs(d: DecSpec) -> nat {
    if d.scale >= 0 {
        digits_val(d.digits) * pow10(d.scale as nat)
    } else {
        digits_val(d.digits) / pow10((-d.scale) as nat)
    }
}

/// A magnitude and sign reduced modulo 2^32 into the signed 32-bit range.
pub open spec fn wrap_int32(mag: nat, neg: bool) -> i32 {
    let m = mag % 0x1_0000_0000;
    let m2: int = if neg {
        (0x1_0000_0000 - m) % 0x1_0000_0000
    } else {
        m as int
    };
    if m2 < 0x8000_0000 {
        m2 as i32
    } else {
        (m2 - 0x1_0000_0000) as i32
    }
}

/// The engine's to-int32 conversion of a number: not-a-number, infinities
/// and zeros give 0; a finite value truncates toward zero and wraps.
pub open spec fn num_to_int32_spec(n: NumSpec) -> i32 {
    match n {
        NumSpec::Fin(d) => wrap_int32(dec_trunc_abs(d), d.neg),
        _ => 0,
    }
}

/// Digits value modulo 2^32, by Horner's rule over a digit range.
fn digits_mod32(digits: &Vec<u8>, to: usize) -> (r: u64)
    requires
        to <= digits@.len(),
        digits_wf(digits@),
    ensures
        r == digits_val(digits@.subrange(0, to as int)) % 0x1_0000_0000,
{
    let mut acc: u64 = 0;
    let mut i: usize = 0;
    proof {
        assert(digits@.subrange(0, 0) =~= Seq::<u8>::empty());
    }
    while i < to
        invariant
            i <= to <= digits@.len(),
            digits_wf(digits@),
            acc == digits_val(digits@.subrange(0, i as int)) % 0x1_0000_0000,
        decreases to - i,
    {
        let ghost pre = digits_val(digits@.subrange(0, i as int));
        let dg = digits[i];
        proof {
            assert(digits@.subrange(0, (i + 1) as int).drop_last() =~= digits@.subrange(
                0,
                i as int,
            ));
            vstd::arithmetic::div_mod::lemma_mul_mod_noop_left(pre as int, 10, 0x1_0000_0000);
            vstd::arithmetic::div_mod::lemma_add_mod_noop(
                ((pre % 0x1_0000_0000) * 10) as int,
                dg as int,
                0x1_0000_0000,
            );
            vstd::arithmetic::div_mod::lemma_add_mod_noop(
                (pre * 10) as int,
                dg as int,
                0x1_0000_0000,
            );
        }
        acc = (acc * 10 + (dg as u64)) % 0x1_0000_0000;
        i = i + 1;
    }
    acc
}

/// The engine's to-int32 conversion.
pub fn num_to_int32(n: &JsNumber) -> (r: i32)
    requires
        n.wf(),
    ensures
        r == num_to_int32_spec(n.deep_view()),
{
    match n {
        JsNumber::NaN => 0,
        JsNumber::Infinite(_) => 0,
        JsNumber::Zero(_) => 0,
        JsNumber::Fin(d) => {
            let ghost dv = d.deep_view();
            let len = d.digits.len();
            let mut m: u64;
            if d.scale >= 0 {
                m = digits_mod32(&d.digits, len);
                proof {
                    assert(d.digits@.subrange(0, len as int) =~= d.digits@);
                    assert(pow10(0) == 1);
                    assert(digits_val(dv.digits) * 1 == digits_val(dv.digits));
                    assert(m == (digits_val(dv.digits) * pow10(0)) % 0x1_0000_0000);
                }
                let sc: u64 = d.scale as u64;
                let mut j: u64 = 0;
                while j < sc
                    invariant
                        j <= sc,
                        sc as int == dv.scale,
                        m == (digits_val(dv.digits) * pow10(j as nat)) % 0x1_0000_0000,
                    decreases sc - j,
                {
                    proof {
                        let x = digits_val(dv.digits) * pow10(j as nat);
                        vstd::arithmetic::div_mod::lemma_mul_mod_noop_left(
                            x as int,
                            10,
                            0x1_0000_0000,
                        );
                        assert(pow10((j + 1) as nat) == 10 * pow10(j as nat));
                        assert(digits_val(dv.digits) * (10 * pow10(j as nat)) == (digits_val(
                            dv.digits,
                        ) * pow10(j as nat)) * 10) by (nonlinear_arith);
                    }
                    m = (m * 10) % 0x1_0000_0000;
                    j = j + 1;
                }
                proof {
                    assert(dec_trunc_abs(dv) == digits_val(dv.digits) * pow10(dv.scale as nat));
                }
            } else {
                let s_neg: i64 = -d.scale;
                if s_neg as u64 >= len as u64 {
                    proof {
                        lemma_digits_val_upper(dv.digits);
                        lemma_pow10_increases(dv.digits.len(), (-dv.scale) as nat);
                        vstd::arithmetic::div_mod::lemma_basic_div(
                            digits_val(dv.digits) as int,
                            pow10((-dv.scale) as nat) as int,
                        );
                    }
                    m = 0;
                } else {
                    let keep: usize = len - (s_neg as usize);
                    m = digits_mod32(&d.digits, keep);
                    proof {
                        let a = dv.digits.subrange(0, keep as int);
                        let b = dv.digits.subrange(keep as int, len as int);
                        assert(a + b =~= dv.digits);
                        lemma_digits_val_append(a, b);
                        lemma_digits_val_upper(b);
                        assert(b.len() == -dv.scale);
                        assert(digits_val(a) * pow10(b.len()) == pow10(b.len()) * digits_val(a))
                            by (nonlinear_arith);
                        vstd::arithmetic::div_mod::lemma_div_multiples_vanish_fancy(
                            digits_val(a) as int,
                            digits_val(b) as int,
                            pow10(b.len()) as int,
                        );
                        assert(dec_trunc_abs(dv) == digits_val(a));
                    }
                }
            }
            let m2: u64 = if d.neg {
                (0x1_0000_0000 - m) % 0x1_0000_0000
            } else {
                m
            };
            if m2 < 0x8000_0000 {
                m2 as i32
            } else {
                ((m2 as i64) - 0x1_0000_0000i64) as i32
            }
        },
    }
}

/// Digits value modulo 2^64, by Horner's rule.
pub fn digits_mod64(digits: &Vec<u8>) -> (r: u64)
    requires
        digits_wf(digits@),
    ensures
        r == digits_val(digits@) % 0x1_0000_0000_0000_0000,
{
    let mut acc: u128 = 0;
    let mut i: usize = 0;
    proof {
        assert(digits@.subrange(0, 0) =~= Seq::<u8>::empty());
    }
    let len = digits.len();
    while i < len
        invariant
            i <= len,
            len == digits@.len(),
            digits_wf(digits@),
            acc == digits_val(digits@.subrange(0, i as int)) % 0x1_0000_0000_0000_0000,
        decreases len - i,
    {
        let ghost pre = digits_val(digits@.subrange(0, i as int));
        let dg = digits[i];
        proof {
            assert(digits@.subrange(0, (i + 1) as int).drop_last() =~= digits@.subrange(
                0,
                i as int,
            ));
            vstd::arithmetic::div_mod::lemma_mul_mod_noop_left(
                pre as int,
                10,
                0x1_0000_0000_0000_0000,
            );
            vstd::arithmetic::div_mod::lemma_add_mod_noop(
                ((pre % 0x1_0000_0000_0000_0000) * 10) as int,
                dg as int,
                0x1_0000_0000_0000_0000,
            );
            vstd::arithmetic::div_mod::lemma_add_mod_noop(
                (pre * 10) as int,
                dg as int,
                0x1_0000_0000_0000_0000,
            );
        }
        acc = (acc * 10 + (dg as u128)) % 0x1_0000_0000_0000_0000;
        i = i + 1;
    }
    proof {
        assert(digits@.subrange(0, len as int) =~= digits@);
    }
    acc as u64
}

/// Saturation cap for digit values read back as machine integers.
pub const VAL_CAP: u64 = 1_000_000_000_000_000_000;

/// Digit value saturated at `VAL_CAP`.
pub open spec fn digits_val_capped(ds: Seq<u8>) -> nat
    decreases ds.len(),
{
    if ds.len() == 0 {
        0
    } else {
        let p = digits_val_capped(ds.drop_last());
        let v = p * 10 + (ds.last() as nat);
        if v > VAL_CAP {
            VAL_CAP as nat
        } else {
            v
        }
    }
}

pub proof fn lemma_digits_val_capped(ds: Seq<u8>)
    requires
        digits_wf(ds),
    ensures
        digits_val_capped(ds) == if digits_val(ds) > VAL_CAP {
            VAL_CAP as nat
        } else {
            digits_val(ds)
        },
    decreases ds.len(),
{
    if ds.len() > 0 {
        assert(digits_wf(ds.drop_last()));
        lemma_digits_val_capped(ds.drop_last());
    }
}

/// Digit value saturated at `VAL_CAP`, so that bounded reads are exact.
pub fn digits_val_sat(digits: &Vec<u8>) -> (r: u64)
    requires
        digits_wf(digits@),
    ensures
        r == digits_val_capped(digits@),
        r <= VAL_CAP,
{
    let mut acc: u64 = 0;
    let mut i: usize = 0;
    proof {
        assert(digits@.subrange(0, 0) =~= Seq::<u8>::empty());
    }
    let len = digits.len();
    while i < len
        invariant
            i <= len,
            len == digits@.len(),
            digits_wf(digits@),
            acc == digits_val_capped(digits@.subrange(0, i as int)),
            acc <= VAL_CAP,
        decreases len - i,
    {
        let dg = digits[i];
        proof {
            assert(digits@.subrange(0, (i + 1) as int).drop_last() =~= digits@.subrange(
                0,
                i as int,
            ));
        }
        let step = acc * 10 + (dg as u64);
        acc = if step > VAL_CAP {
            VAL_CAP
        } else {
            step
        };
        i = i + 1;
    }
    proof {
        assert(digits@.subrange(0, len as int) =~= digits@);
    }
    acc
}

impl Dec {
    /// An equal decimal.
    pub fn dup(&self) -> (r: Dec)
        ensures
            r.deep_view() == self.deep_view(),
    {
        let mut digits: Vec<u8> = Vec::new();
        let mut i: usize = 0;
        let len = self.digits.len();
        while i < len
            invariant
                i <= len,
                len == self.digits@.len(),
                digits@ == self.digits@.subrange(0, i as int),
            decreases len - i,
        {
            digits.push(self.digits[i]);
            proof {
                assert(self.digits@.subrange(0, (i + 1) as int) =~= self.digits@.subrange(
                    0,
                    i as int,
                ).push(self.digits@[i as int]));
            }
            i = i + 1;
        }
        proof {
            assert(digits@ =~= self.digits@);
        }
        Dec { neg: self.neg, digits, scale: self.scale }
    }
}

impl JsNumber {
    /// An equal engine number.
    pub fn dup(&self) -> (r: JsNumber)
        ensures
            r.deep_view() == self.deep_view(),
    {
        match self {
            JsNumber::NaN => JsNumber::NaN,
            JsNumber::Infinite(neg) => JsNumber::Infinite(*neg),
            JsNumber::Zero(neg) => JsNumber::Zero(*neg),
            JsNumber::Fin(d) => JsNumber::Fin(d.dup()),
        }
    }
}

/// Euclidean remainder of a negated value.
pub proof fn lemma_neg_mod(x: int, m: int)
    requires
        m > 0,
        x >= 0,
    ensures
        (-x) % m == (m - x % m) % m,
{
    let q = x / m;
    let r = x % m;
    vstd::arithmetic::div_mod::lemma_fundamental_div_mod(x, m);
    assert(x == q * m + r);
    assert(-x == (-q - 1) * m + (m - r)) by (nonlinear_arith)
        requires
            x == q * m + r,
    ;
    if r == 0 {
        assert(-x == (-q) * m + 0) by (nonlinear_arith)
            requires
                x == q * m + r,
                r == 0,
        ;
        vstd::arithmetic::div_mod::lemma_mod_multiples_vanish(-q, 0, m);
        vstd::arithmetic::div_mod::lemma_mod_multiples_vanish(1, 0, m);
        assert((m - 0) % m == 0) by {
            vstd::arithmetic::div_mod::lemma_mod_multiples_basic(1, m);
        }
    } else {
        vstd::arithmetic::div_mod::lemma_mod_multiples_vanish(-q - 1, m - r, m);
        vstd::arithmetic::div_mod::lemma_small_mod((m - r) as nat, m as nat);
    }
}

/// pow10 turns sums into products.
pub proof fn lemma_pow10_mul(a: nat, b: nat)
    ensures
        pow10(a + b) == pow10(a) * pow10(b),
    decreases b,
{
    if b == 0 {
        assert(pow10(a + 0) == pow10(a) * 1);
    } else {
        lemma_pow10_mul(a, (b - 1) as nat);
        assert(pow10(a + b) == 10 * pow10((a + b - 1) as nat));
        assert(pow10(b) == 10 * pow10((b - 1) as nat));
        assert(pow10(a) * (10 * pow10((b - 1) as nat)) == 10 * (pow10(a) * pow10(
            (b - 1) as nat,
        ))) by (nonlinear_arith);
    }
}

fn dec_of_mag(neg: bool, mag: u64) -> (r: Dec)
    requires
        mag >= 1,
    ensures
        r.deep_view() == spec_dec_of_mag(neg, mag as nat),
    decreases mag,
{
    if mag % 10 == 0 {
        let inner = dec_of_mag(neg, mag / 10);
        proof {
            lemma_dec_of_mag_wf(neg, (mag / 10) as nat);
        }
        Dec { neg: inner.neg, digits: inner.digits, scale: inner.scale + 1 }
    } else {
        let mut digits: Vec<u8> = Vec::new();
        push_digits(mag, &mut digits);
        assert(digits@ =~= digits_of(mag as nat));
        Dec { neg, digits, scale: 0 }
    }
}

} // verus!
