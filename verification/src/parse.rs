use vstd::prelude::*;
use vstd::string::StrSliceExecFns;
use crate::number::{digits_val, digits_wf, Dec, DecSpec, JsNumber, NumSpec};

verus! {

// The engine's to-number coercion of text: optional surrounding whitespace,
// an optional sign, either the word Infinity or a decimal literal with an
// optional fraction and exponent. Anything else denotes not-a-number. The
// value is kept as an exact decimal; magnitudes beyond the engine's number
// range clamp to an infinity or to zero, and exponents and significant
// digits beyond the model's precision caps saturate.

pub open spec fn is_ws(c: char) -> bool {
    c == ' ' || c == '\t' || c == '\n' || c == '\r' || c == '\u{b}' || c == '\u{c}'
}

/// Digit value of a character; 255 marks a non-digit.
pub open spec fn digit_of(c: char) -> u8 {
    if c == '0' {
        0
    } else if c == '1' {
        1
    } else if c == '2' {
        2
    } else if c == '3' {
        3
    } else if c == '4' {
        4
    } else if c == '5' {
        5
    } else if c == '6' {
        6
    } else if c == '7' {
        7
    } else if c == '8' {
        8
    } else if c == '9' {
        9
    } else {
        255
    }
}

pub open spec fn is_digit_char(c: char) -> bool {
    digit_of(c) <= 9
}

/// First index at or after `i` holding a non-whitespace character.
pub open spec fn skip_ws(s: Seq<char>, i: int) -> int
    decreases s.len() - i,
{
    if 0 <= i < s.len() && is_ws(s[i]) {
        skip_ws(s, i + 1)
    } else {
        i
    }
}

/// Last bound at or before `j` with no whitespace character just before it.
pub open spec fn skip_ws_end(s: Seq<char>, j: int) -> int
    decreases j,
{
    if 0 < j <= s.len() && is_ws(s[j - 1]) {
        skip_ws_end(s, j - 1)
    } else {
        j
    }
}

/// First index in [i, b) holding a non-digit character, else b.
pub open spec fn scan_digits(s: Seq<char>, i: int, b: int) -> int
    decreases b - i,
{
    if 0 <= i < b <= s.len() && is_digit_char(s[i]) {
        scan_digits(s, i + 1, b)
    } else {
        i
    }
}

/// Digit values of the characters in [i, j).
pub open spec fn digit_seq(s: Seq<char>, i: int, j: int) -> Seq<u8> {
    s.subrange(i, j).map_values(|c: char| digit_of(c))
}

pub open spec fn is_infinity_at(s: Seq<char>, i: int, b: int) -> bool {
    &&& b - i == 8
    &&& s[i] == 'I'
    &&& s[i + 1] == 'n'
    &&& s[i + 2] == 'f'
    &&& s[i + 3] == 'i'
    &&& s[i + 4] == 'n'
    &&& s[i + 5] == 'i'
    &&& s[i + 6] == 't'
    &&& s[i + 7] == 'y'
}

/// Exponent saturation cap.
pub const EXP_CAP: u64 = 1_000_000_000_000_000_000;

/// Digit value saturated at `EXP_CAP`.
pub open spec fn sat_val(ds: Seq<u8>) -> int
    decreases ds.len(),
{
    if ds.len() == 0 {
        0
    } else {
        let p = sat_val(ds.drop_last());
        let v = p * 10 + ds.last();
        if v > EXP_CAP {
            EXP_CAP as int
        } else {
            v
        }
    }
}

pub proof fn lemma_sat_val(ds: Seq<u8>)
    requires
        digits_wf(ds),
    ensures
        sat_val(ds) == if digits_val(ds) > EXP_CAP { EXP_CAP as int } else { digits_val(ds) as int },
    decreases ds.len(),
{
    if ds.len() > 0 {
        assert(digits_wf(ds.drop_last()));
        lemma_sat_val(ds.drop_last());
    }
}

/// Dropping leading zero digits.
pub open spec fn strip_lead(ds: Seq<u8>) -> Seq<u8>
    decreases ds.len(),
{
    if ds.len() > 0 && ds[0] == 0 {
        strip_lead(ds.subrange(1, ds.len() as int))
    } else {
        ds
    }
}

/// Dropping trailing zero digits.
pub open spec fn strip_trail(ds: Seq<u8>) -> Seq<u8>
    decreases ds.len(),
{
    if ds.len() > 0 && ds.last() == 0 {
        strip_trail(ds.drop_last())
    } else {
        ds
    }
}

/// Significant-digit cap of the model.
pub const SIG_CAP: u64 = 1100;

/// Builds the canonical number from a sign, raw mantissa digits and a scale.
pub open spec fn assemble_num(neg: bool, mant: Seq<u8>, scale: int) -> NumSpec {
    let sig = strip_lead(mant);
    if sig.len() == 0 {
        NumSpec::Zero(neg)
    } else {
        let kept = if sig.len() > SIG_CAP { sig.subrange(0, SIG_CAP as int) } else { sig };
        let extra = sig.len() - kept.len();
        let core = strip_trail(kept);
        let sc = scale + extra + (kept.len() - core.len());
        let order = core.len() + sc;
        if order > 309 {
            NumSpec::Infinite(neg)
        } else if order < -323 {
            NumSpec::Zero(neg)
        } else {
            NumSpec::Fin(DecSpec { neg, digits: core, scale: sc })
        }
    }
}

/// Exponent part starting at `i`: its signed saturated value, and whether
/// the text from `i` to `b` is a well-formed (possibly empty) exponent.
pub open spec fn parse_exp(s: Seq<char>, i: int, b: int) -> (int, bool) {
    if i == b {
        (0, true)
    } else if s[i] == 'e' || s[i] == 'E' {
        let has_sign = i + 1 < b && (s[i + 1] == '-' || s[i + 1] == '+');
        let esign = i + 1 < b && s[i + 1] == '-';
        let j = if has_sign { i + 2 } else { i + 1 };
        if j < b && scan_digits(s, j, b) == b {
            let v = sat_val(digit_seq(s, j, b));
            ((if esign { -v } else { v }), true)
        } else {
            (0, false)
        }
    } else {
        (0, false)
    }
}

/// The number denoted between `i0` and `b` (no sign, no whitespace).
pub open spec fn parse_body(s: Seq<char>, i0: int, b: int, neg: bool) -> NumSpec {
    if is_infinity_at(s, i0, b) {
        NumSpec::Infinite(neg)
    } else {
        let p = scan_digits(s, i0, b);
        let has_dot = p < b && s[p] == '.';
        let fs = if has_dot { p + 1 } else { p };
        let fe = if has_dot { scan_digits(s, p + 1, b) } else { p };
        if p == i0 && fe == fs {
            NumSpec::NaN
        } else {
            let e = parse_exp(s, fe, b);
            if !e.1 {
                NumSpec::NaN
            } else {
                let mant = digit_seq(s, i0, p) + digit_seq(s, fs, fe);
                assemble_num(neg, mant, e.0 - (fe - fs))
            }
        }
    }
}

/// The engine's to-number coercion of a character sequence.
pub open spec fn str_to_num(s: Seq<char>) -> NumSpec {
    let a = skip_ws(s, 0);
    let b = skip_ws_end(s, s.len() as int);
    if a >= b {
        NumSpec::Zero(false)
    } else if s[a] == '-' {
        parse_body(s, a + 1, b, true)
    } else if s[a] == '+' {
        parse_body(s, a + 1, b, false)
    } else {
        parse_body(s, a, b, false)
    }
}

// ---------------------------------------------------------------------------
// The engine's string-to-big-integer reading: whitespace, an optional sign,
// then decimal digits only; empty text denotes zero; anything else fails.

/// The sign and digit values of an integer literal, if the text is one.
pub open spec fn str_to_big(s: Seq<char>) -> Option<(bool, Seq<u8>)> {
    let a = skip_ws(s, 0);
    let b = skip_ws_end(s, s.len() as int);
    if a >= b {
        Some((false, Seq::empty()))
    } else {
        let neg = s[a] == '-';
        let i0 = if s[a] == '-' || s[a] == '+' { a + 1 } else { a };
        if i0 < b && scan_digits(s, i0, b) == b {
            Some((neg, digit_seq(s, i0, b)))
        } else {
            None
        }
    }
}

// ---------------------------------------------------------------------------
// Executable parsing.

fn is_ws_exec(c: char) -> (r: bool)
    ensures
        r == is_ws(c),
{
    c == ' ' || c == '\t' || c == '\n' || c == '\r' || c == '\u{b}' || c == '\u{c}'
}

fn digit_of_exec(c: char) -> (r: u8)
    ensures
        r == digit_of(c),
{
    if c == '0' {
        0
    } else if c == '1' {
        1
    } else if c == '2' {
        2
    } else if c == '3' {
        3
    } else if c == '4' {
        4
    } else if c == '5' {
        5
    } else if c == '6' {
        6
    } else if c == '7' {
        7
    } else if c == '8' {
        8
    } else if c == '9' {
        9
    } else {
        255
    }
}

/// The characters of a string, in order.
pub fn str_chars(s: &str) -> (r: Vec<char>)
    ensures
        r@ == s@,
{
    let len = s.unicode_len();
    let mut out: Vec<char> = Vec::new();
    let mut i: usize = 0;
    while i < len
        invariant
            i <= len,
            len == s@.len(),
            out@ == s@.subrange(0, i as int),
        decreases len - i,
    {
        out.push(s.get_char(i));
        proof {
            assert(out@ =~= s@.subrange(0, (i + 1) as int));
        }
        i = i + 1;
    }
    proof {
        assert(out@ =~= s@);
    }
    out
}

fn skip_ws_exec(v: &Vec<char>, from: usize) -> (r: usize)
    requires
        from <= v@.len(),
    ensures
        r == skip_ws(v@, from as int),
        from <= r <= v@.len(),
{
    let len = v.len();
    let mut i: usize = from;
    while i < len && is_ws_exec(v[i])
        invariant
            from <= i <= len,
            len == v@.len(),
            skip_ws(v@, from as int) == skip_ws(v@, i as int),
        decreases len - i,
    {
        i = i + 1;
    }
    i
}

fn skip_ws_end_exec(v: &Vec<char>) -> (r: usize)
    ensures
        r == skip_ws_end(v@, v@.len() as int),
        r <= v@.len(),
{
    let len = v.len();
    let mut j: usize = len;
    while j > 0 && is_ws_exec(v[j - 1])
        invariant
            j <= len,
            len == v@.len(),
            skip_ws_end(v@, len as int) == skip_ws_end(v@, j as int),
        decreases j,
    {
        j = j - 1;
    }
    j
}

fn scan_digits_exec(v: &Vec<char>, from: usize, b: usize) -> (r: usize)
    requires
        from <= b <= v@.len(),
    ensures
        r == scan_digits(v@, from as int, b as int),
        from <= r <= b,
        forall|k: int| from <= k < r ==> is_digit_char(v@[k]),
        r < b ==> !is_digit_char(v@[r as int]),
{
    let mut i: usize = from;
    while i < b && digit_of_exec(v[i]) <= 9
        invariant
            from <= i <= b <= v@.len(),
            scan_digits(v@, from as int, b as int) == scan_digits(v@, i as int, b as int),
            forall|k: int| from <= k < i ==> is_digit_char(v@[k]),
        decreases b - i,
    {
        i = i + 1;
    }
    i
}

/// Appends the digit values of the characters in [i, j).
fn collect_digits(v: &Vec<char>, from: usize, to: usize, out: &mut Vec<u8>)
    requires
        from <= to <= v@.len(),
    ensures
        final(out)@ == old(out)@ + digit_seq(v@, from as int, to as int),
{
    let mut i: usize = from;
    proof {
        assert(out@ =~= old(out)@ + digit_seq(v@, from as int, from as int));
    }
    while i < to
        invariant
            from <= i <= to <= v@.len(),
            out@ == old(out)@ + digit_seq(v@, from as int, i as int),
        decreases to - i,
    {
        out.push(digit_of_exec(v[i]));
        proof {
            assert(v@.subrange(from as int, (i + 1) as int) =~= v@.subrange(
                from as int,
                i as int,
            ).push(v@[i as int]));
            assert(digit_seq(v@, from as int, (i + 1) as int) =~= digit_seq(
                v@,
                from as int,
                i as int,
            ).push(digit_of(v@[i as int])));
            assert(out@ =~= old(out)@ + digit_seq(v@, from as int, (i + 1) as int));
        }
        i = i + 1;
    }
}

/// Saturated value of a digit run.
fn sat_digits(v: &Vec<char>, from: usize, to: usize) -> (r: u64)
    requires
        from <= to <= v@.len(),
    ensures
        r == sat_val(digit_seq(v@, from as int, to as int)),
        r <= EXP_CAP,
{
    let mut acc: u64 = 0;
    let mut i: usize = from;
    proof {
        assert(digit_seq(v@, from as int, from as int) =~= Seq::<u8>::empty());
    }
    while i < to
        invariant
            from <= i <= to <= v@.len(),
            acc == sat_val(digit_seq(v@, from as int, i as int)),
            acc <= EXP_CAP,
        decreases to - i,
    {
        let d = digit_of_exec(v[i]);
        let d64: u64 = d as u64;
        proof {
            assert(v@.subrange(from as int, (i + 1) as int) =~= v@.subrange(
                from as int,
                i as int,
            ).push(v@[i as int]));
            assert(digit_seq(v@, from as int, (i + 1) as int) =~= digit_seq(
                v@,
                from as int,
                i as int,
            ).push(digit_of(v@[i as int])));
            assert(digit_seq(v@, from as int, (i + 1) as int).drop_last() =~= digit_seq(
                v@,
                from as int,
                i as int,
            ));
        }
        let step = acc * 10 + d64;
        acc = if step > EXP_CAP {
            EXP_CAP
        } else {
            step
        };
        i = i + 1;
    }
    acc
}

/// Builds the canonical number for a sign, raw mantissa digits and a scale.
#[verifier::rlimit(100)]
fn assemble_exec(neg: bool, mant: &Vec<u8>, scale: i128) -> (r: JsNumber)
    requires
        digits_wf(mant@),
        -0x40_0000_0000_0000_0000_0000 <= scale <= 0x40_0000_0000_0000_0000_0000,
    ensures
        r.deep_view() == assemble_num(neg, mant@, scale as int),
        r.wf(),
{
    let len = mant.len();
    let mut k: usize = 0;
    proof {
        assert(mant@.subrange(0, len as int) =~= mant@);
    }
    while k < len && mant[k] == 0
        invariant
            k <= len,
            len == mant@.len(),
            strip_lead(mant@) == strip_lead(mant@.subrange(k as int, len as int)),
        decreases len - k,
    {
        proof {
            let sub = mant@.subrange(k as int, len as int);
            assert(sub[0] == mant@[k as int]);
            assert(sub.subrange(1, sub.len() as int) =~= mant@.subrange(
                (k + 1) as int,
                len as int,
            ));
        }
        k = k + 1;
    }
    let ghost sig = strip_lead(mant@);
    if k == len {
        proof {
            assert(mant@.subrange(k as int, len as int) =~= Seq::<u8>::empty());
        }
        return JsNumber::Zero(neg);
    }
    proof {
        assert(sig =~= mant@.subrange(k as int, len as int));
    }
    let sig_len = len - k;
    let kept_end: usize = if sig_len > 1100 {
        k + 1100
    } else {
        len
    };
    let ghost kept = mant@.subrange(k as int, kept_end as int);
    proof {
        if sig.len() > SIG_CAP {
            assert(kept =~= sig.subrange(0, SIG_CAP as int));
        } else {
            assert(kept =~= sig);
        }
    }
    let extra: usize = len - kept_end;
    let mut m: usize = kept_end;
    proof {
        assert(mant@.subrange(k as int, m as int) =~= kept);
    }
    while m > k && mant[m - 1] == 0
        invariant
            k + 1 <= m <= kept_end,
            kept_end <= len == mant@.len(),
            digits_wf(mant@),
            mant@[k as int] != 0,
            strip_trail(kept) == strip_trail(mant@.subrange(k as int, m as int)),
        decreases m,
    {
        proof {
            let sub = mant@.subrange(k as int, m as int);
            assert(sub.last() == mant@[m - 1]);
            assert(sub.drop_last() =~= mant@.subrange(k as int, (m - 1) as int));
        }
        m = m - 1;
    }
    let ghost core = strip_trail(kept);
    proof {
        let sub = mant@.subrange(k as int, m as int);
        assert(sub.last() == mant@[m - 1]);
        assert(core =~= sub);
    }
    let tz: usize = kept_end - m;
    let sc: i128 = scale + (extra as i128) + (tz as i128);
    let order: i128 = ((m - k) as i128) + sc;
    if order > 309 {
        JsNumber::Infinite(neg)
    } else if order < -323 {
        JsNumber::Zero(neg)
    } else {
        let mut digits: Vec<u8> = Vec::new();
        let mut idx: usize = k;
        while idx < m
            invariant
                k <= idx <= m <= mant@.len(),
                digits@ == mant@.subrange(k as int, idx as int),
            decreases m - idx,
        {
            digits.push(mant[idx]);
            proof {
                assert(mant@.subrange(k as int, (idx + 1) as int) =~= mant@.subrange(
                    k as int,
                    idx as int,
                ).push(mant@[idx as int]));
            }
            idx = idx + 1;
        }
        let d = Dec { neg, digits, scale: sc as i64 };
        proof {
            assert(d.deep_view().digits =~= core);
        }
        JsNumber::Fin(d)
    }
}

/// The engine's to-number coercion of a character vector.
pub fn num_of_chars(v: &Vec<char>) -> (r: JsNumber)
    ensures
        r.deep_view() == str_to_num(v@),
        r.wf(),
{
    let a = skip_ws_exec(v, 0);
    let b = skip_ws_end_exec(v);
    if a >= b {
        return JsNumber::Zero(false);
    }
    let c = v[a];
    if c == '-' {
        parse_body_exec(v, a + 1, b, true)
    } else if c == '+' {
        parse_body_exec(v, a + 1, b, false)
    } else {
        parse_body_exec(v, a, b, false)
    }
}

/// The engine's to-number coercion of text.
pub fn str_to_number(s: &str) -> (r: JsNumber)
    ensures
        r.deep_view() == str_to_num(s@),
        r.wf(),
{
    let v = str_chars(s);
    num_of_chars(&v)
}

#[verifier::rlimit(100)]
fn parse_body_exec(v: &Vec<char>, i0: usize, b: usize, neg: bool) -> (r: JsNumber)
    requires
        i0 <= b <= v@.len(),
    ensures
        r.deep_view() == parse_body(v@, i0 as int, b as int, neg),
        r.wf(),
{
    if b - i0 == 8 && v[i0] == 'I' && v[i0 + 1] == 'n' && v[i0 + 2] == 'f' && v[i0 + 3] == 'i'
        && v[i0 + 4] == 'n' && v[i0 + 5] == 'i' && v[i0 + 6] == 't' && v[i0 + 7] == 'y' {
        return JsNumber::Infinite(neg);
    }
    let p = scan_digits_exec(v, i0, b);
    let has_dot = p < b && v[p] == '.';
    let fs: usize = if has_dot {
        p + 1
    } else {
        p
    };
    let fe: usize = if has_dot {
        scan_digits_exec(v, p + 1, b)
    } else {
        p
    };
    if p == i0 && fe == fs {
        return JsNumber::NaN;
    }
    let mut eval: i64 = 0;
    let mut ok: bool = false;
    if fe == b {
        ok = true;
    } else if v[fe] == 'e' || v[fe] == 'E' {
        let has_sign = fe + 1 < b && (v[fe + 1] == '-' || v[fe + 1] == '+');
        let esign = fe + 1 < b && v[fe + 1] == '-';
        let j: usize = if has_sign {
            fe + 2
        } else {
            fe + 1
        };
        if j < b && scan_digits_exec(v, j, b) == b {
            let val = sat_digits(v, j, b);
            eval = if esign {
                -(val as i64)
            } else {
                val as i64
            };
            ok = true;
        }
    }
    if !ok {
        return JsNumber::NaN;
    }
    let mut mant: Vec<u8> = Vec::new();
    collect_digits(v, i0, p, &mut mant);
    collect_digits(v, fs, fe, &mut mant);
    proof {
        assert(mant@ =~= digit_seq(v@, i0 as int, p as int) + digit_seq(
            v@,
            fs as int,
            fe as int,
        ));
        assert forall|t: int| 0 <= t < mant@.len() implies mant@[t] <= 9 by {
            let da = digit_seq(v@, i0 as int, p as int);
            if t < da.len() {
                assert(da[t] == digit_of(v@[i0 + t]));
            } else {
                let db = digit_seq(v@, fs as int, fe as int);
                assert(db[t - da.len()] == digit_of(v@[fs + (t - da.len())]));
            }
        }
    }
    let scale: i128 = (eval as i128) - ((fe - fs) as i128);
    assemble_exec(neg, &mant, scale)
}

/// The engine's string-to-big-integer reading of a character vector:
/// the sign and the digit values, or nothing when the text is not an
/// integer literal.
pub fn big_of_chars(v: &Vec<char>) -> (r: Option<(bool, Vec<u8>)>)
    ensures
        match r {
            Some(p) => str_to_big(v@) == Some((p.0, p.1@)) && digits_wf(p.1@),
            None => str_to_big(v@) is None,
        },
{
    let a = skip_ws_exec(v, 0);
    let b = skip_ws_end_exec(v);
    if a >= b {
        let empty: Vec<u8> = Vec::new();
        proof {
            assert(empty@ =~= Seq::<u8>::empty());
        }
        return Some((false, empty));
    }
    let c = v[a];
    let neg = c == '-';
    let i0: usize = if c == '-' || c == '+' {
        a + 1
    } else {
        a
    };
    if i0 < b && scan_digits_exec(v, i0, b) == b {
        let mut ds: Vec<u8> = Vec::new();
        collect_digits(v, i0, b, &mut ds);
        proof {
            assert(ds@ =~= digit_seq(v@, i0 as int, b as int));
            assert forall|t: int| 0 <= t < ds@.len() implies ds@[t] <= 9 by {
                assert(ds@[t] == digit_of(v@[i0 + t]));
            }
        }
        Some((neg, ds))
    } else {
        None
    }
}

} // verus!
