use vstd::prelude::*;
use vstd::string::*;
use crate::number::{
    digits_mod64, digits_val, lemma_neg_mod, num_of_i64, num_of_u32, num_to_int32,
    num_to_int32_spec, spec_num_of_int, JsNumber, NumSpec,
};
use crate::parse::{big_of_chars, num_of_chars, str_chars, str_to_big, str_to_num};
use crate::render::{int_chars, num_chars, number_text, push_int_chars, uint_chars, push_uint_chars};
use crate::value::{
    dyn_view, dyn_wf, dyn_wf_seq, lemma_dyn_wf_seq_index, DynValue, DynView,
};

verus! {

// The engine's loose scalar coercions over whole dynamic values: truthiness,
// to-string, to-int32 and to-number. Each follows the engine's own rules;
// object-like values coerce through their text form.

/// The engine's truthiness coercion.
pub open spec fn spec_truthy(v: DynView) -> bool {
    match v {
        DynView::Null => false,
        DynView::Undefined => false,
        DynView::Bool(b) => b,
        DynView::Int32(i) => i != 0,
        DynView::Uint32(u) => u != 0,
        DynView::BigInt(b) => b != 0,
        DynView::Number(n) => match n {
            NumSpec::NaN => false,
            NumSpec::Zero(_) => false,
            NumSpec::Infinite(_) => true,
            NumSpec::Fin(_) => true,
        },
        DynView::Text(s) => s.len() != 0,
        DynView::Array(_) => true,
        DynView::Object(_) => true,
        DynView::Assoc(_) => true,
    }
}

/// The engine's truthiness coercion: only null, undefined, false, zero,
/// not-a-number and empty text are falsy.
pub fn truthy(v: &DynValue) -> (r: bool)
    ensures
        r == spec_truthy(v.deep_view()),
{
    match v {
        DynValue::Null => false,
        DynValue::Undefined => false,
        DynValue::Bool(b) => *b,
        DynValue::Int32(i) => *i != 0,
        DynValue::Uint32(u) => *u != 0,
        DynValue::BigInt(b) => *b != 0,
        DynValue::Number(n) => match n {
            JsNumber::NaN => false,
            JsNumber::Zero(_) => false,
            JsNumber::Infinite(_) => true,
            JsNumber::Fin(_) => true,
        },
        DynValue::Text(s) => s.as_str().unicode_len() != 0,
        DynValue::Array(_) => true,
        DynValue::Object(_) => true,
        DynValue::Assoc(_) => true,
    }
}

// ---------------------------------------------------------------------------
// To-string.

/// The engine's to-string coercion. Arrays join their elements with commas,
/// where null and undefined elements render empty; plain objects and maps
/// render as their class tags.
pub open spec fn spec_to_text(v: DynView) -> Seq<char>
    decreases v, 0int,
{
    match v {
        DynView::Null => "null"@,
        DynView::Undefined => "undefined"@,
        DynView::Bool(b) => if b {
            "true"@
        } else {
            "false"@
        },
        DynView::Int32(i) => int_chars(i as int),
        DynView::Uint32(u) => uint_chars(u as nat),
        DynView::BigInt(b) => int_chars(b as int),
        DynView::Number(n) => num_chars(n),
        DynView::Text(s) => s,
        DynView::Array(items) => join_elems(items),
        DynView::Object(_) => "[object Object]"@,
        DynView::Assoc(_) => "[object Map]"@,
    }
}

/// Comma-joined element texts of an array.
pub open spec fn join_elems(items: Seq<DynView>) -> Seq<char>
    decreases items, 2int,
{
    if items.len() == 0 {
        Seq::empty()
    } else if items.len() == 1 {
        elem_join_text(items[0])
    } else {
        join_elems(items.drop_last()) + seq![','] + elem_join_text(items.last())
    }
}

/// The text an element contributes to a join: empty for null and undefined.
pub open spec fn elem_join_text(v: DynView) -> Seq<char>
    decreases v, 1int,
{
    match v {
        DynView::Null => Seq::empty(),
        DynView::Undefined => Seq::empty(),
        _ => spec_to_text(v),
    }
}

/// The engine's to-string coercion.
pub fn to_text(v: &DynValue) -> (r: String)
    requires
        v.wf(),
    ensures
        r@ == spec_to_text(v.deep_view()),
    decreases dyn_view(*v),
{
    match v {
        DynValue::Null => String::from_str("null"),
        DynValue::Undefined => String::from_str("undefined"),
        DynValue::Bool(b) => if *b {
            String::from_str("true")
        } else {
            String::from_str("false")
        },
        DynValue::Int32(i) => {
            let mut out = String::new();
            push_int_chars(*i as i64, &mut out);
            out
        },
        DynValue::Uint32(u) => {
            let mut out = String::new();
            push_uint_chars(*u as u64, &mut out);
            out
        },
        DynValue::BigInt(b) => {
            let mut out = String::new();
            push_int_chars(*b, &mut out);
            out
        },
        DynValue::Number(n) => number_text(n),
        DynValue::Text(s) => s.clone(),
        DynValue::Array(items) => {
            let ghost iv = crate::value::dyn_view_seq(items@);
            proof {
                crate::value::lemma_dyn_view_seq(items@);
                assert(dyn_view(*v) == DynView::Array(iv));
            }
            let len = items.len();
            let mut out = String::new();
            let mut i: usize = 0;
            proof {
                assert(iv.subrange(0, 0) =~= Seq::<DynView>::empty());
            }
            while i < len
                invariant
                    i <= len,
                    len == items@.len(),
                    dyn_view(*v) == DynView::Array(iv),
                    iv == crate::value::dyn_view_seq(items@),
                    iv.len() == len,
                    forall|k: int| 0 <= k < len ==> iv[k] == dyn_view(items@[k]),
                    dyn_wf_seq(iv),
                    out@ == join_elems(iv.subrange(0, i as int)),
                decreases len - i,
            {
                if i > 0 {
                    out.append(",");
                }
                proof {
                    lemma_dyn_wf_seq_index(iv, i as int);
                    assert(dyn_view(*v) == DynView::Array(iv));
                    assert(dyn_view(*v)->Array_0 == iv);
                    assert(decreases_to!(dyn_view(*v) => dyn_view(*v)->Array_0));
                    assert(decreases_to!(iv => iv[i as int]));
                }
                match &items[i] {
                    DynValue::Null => {},
                    DynValue::Undefined => {},
                    el => {
                        let t = to_text(el);
                        out.append(t.as_str());
                        proof {
                            assert(items@[i as int] != DynValue::Null);
                            assert(items@[i as int] != DynValue::Undefined);
                            assert(elem_join_text(iv[i as int]) == spec_to_text(iv[i as int]));
                        }
                    },
                }
                proof {
                    reveal_strlit(",");
                    let pre = iv.subrange(0, i as int);
                    let cur = iv.subrange(0, (i + 1) as int);
                    assert(cur.drop_last() =~= pre);
                    assert(cur.last() == iv[i as int]);
                    if i == 0 {
                        assert(cur.len() == 1);
                        assert(out@ =~= elem_join_text(iv[0]));
                        assert(out@ =~= join_elems(cur));
                    } else {
                        assert(out@ =~= join_elems(pre) + seq![','] + elem_join_text(
                            iv[i as int],
                        ));
                        assert(out@ =~= join_elems(cur));
                    }
                }
                i = i + 1;
            }
            proof {
                assert(iv.subrange(0, len as int) =~= iv);
            }
            out
        },
        DynValue::Object(_) => String::from_str("[object Object]"),
        DynValue::Assoc(_) => String::from_str("[object Map]"),
    }
}

// ---------------------------------------------------------------------------
// To-int32.

/// The engine's to-int32 coercion: numeric coercion, truncation toward
/// zero, and 32-bit wrapping; anything non-numeric gives 0. Object-like
/// values coerce through their text form.
pub open spec fn spec_to_int32(v: DynView) -> i32 {
    match v {
        DynView::Null => 0,
        DynView::Undefined => 0,
        DynView::Bool(b) => if b {
            1
        } else {
            0
        },
        DynView::Int32(i) => i,
        DynView::Uint32(u) => if u <= 0x7FFF_FFFF {
            u as i32
        } else {
            (u - 0x1_0000_0000) as i32
        },
        DynView::BigInt(_) => 0,
        DynView::Number(n) => num_to_int32_spec(n),
        DynView::Text(s) => num_to_int32_spec(str_to_num(s)),
        DynView::Array(_) => num_to_int32_spec(str_to_num(spec_to_text(v))),
        DynView::Object(_) => num_to_int32_spec(str_to_num(spec_to_text(v))),
        DynView::Assoc(_) => num_to_int32_spec(str_to_num(spec_to_text(v))),
    }
}

/// The engine's to-int32 coercion.
pub fn to_int32(v: &DynValue) -> (r: i32)
    requires
        v.wf(),
    ensures
        r == spec_to_int32(v.deep_view()),
{
    match v {
        DynValue::Null => 0,
        DynValue::Undefined => 0,
        DynValue::Bool(b) => if *b {
            1
        } else {
            0
        },
        DynValue::Int32(i) => *i,
        DynValue::Uint32(u) => if *u <= 0x7FFF_FFFF {
            *u as i32
        } else {
            ((*u as i64) - 0x1_0000_0000i64) as i32
        },
        DynValue::BigInt(_) => 0,
        DynValue::Number(n) => num_to_int32(n),
        DynValue::Text(s) => {
            let cs = str_chars(s.as_str());
            let n = num_of_chars(&cs);
            num_to_int32(&n)
        },
        DynValue::Array(_) | DynValue::Object(_) | DynValue::Assoc(_) => {
            let t = to_text(v);
            let cs = str_chars(t.as_str());
            let n = num_of_chars(&cs);
            num_to_int32(&n)
        },
    }
}

// ---------------------------------------------------------------------------
// To-number.

/// The engine's to-number coercion: nothing only for a big integer, whose
/// numeric coercion the engine refuses; otherwise the numeric value, with
/// text and object-like values read through the text-to-number rules.
pub open spec fn spec_to_number(v: DynView) -> Option<NumSpec> {
    match v {
        DynView::Null => Some(NumSpec::Zero(false)),
        DynView::Undefined => Some(NumSpec::NaN),
        DynView::Bool(b) => Some(spec_num_of_int(if b { 1int } else { 0int })),
        DynView::Int32(i) => Some(spec_num_of_int(i as int)),
        DynView::Uint32(u) => Some(spec_num_of_int(u as int)),
        DynView::BigInt(_) => None,
        DynView::Number(n) => Some(n),
        DynView::Text(s) => Some(str_to_num(s)),
        DynView::Array(_) => Some(str_to_num(spec_to_text(v))),
        DynView::Object(_) => Some(str_to_num(spec_to_text(v))),
        DynView::Assoc(_) => Some(str_to_num(spec_to_text(v))),
    }
}

/// The engine's to-number coercion.
pub fn to_number(v: &DynValue) -> (r: Option<JsNumber>)
    requires
        v.wf(),
    ensures
        match r {
            Some(n) => spec_to_number(v.deep_view()) == Some(n.deep_view()) && n.wf(),
            None => spec_to_number(v.deep_view()) is None,
        },
{
    match v {
        DynValue::Null => Some(JsNumber::Zero(false)),
        DynValue::Undefined => Some(JsNumber::NaN),
        DynValue::Bool(b) => Some(num_of_i64(if *b {
            1
        } else {
            0
        })),
        DynValue::Int32(i) => Some(num_of_i64(*i as i64)),
        DynValue::Uint32(u) => Some(num_of_u32(*u)),
        DynValue::BigInt(_) => None,
        DynValue::Number(n) => {
            proof {
                assert(dyn_wf(v.deep_view()));
            }
            Some(n.dup())
        },
        DynValue::Text(s) => {
            let cs = str_chars(s.as_str());
            Some(num_of_chars(&cs))
        },
        DynValue::Array(_) | DynValue::Object(_) | DynValue::Assoc(_) => {
            let t = to_text(v);
            let cs = str_chars(t.as_str());
            Some(num_of_chars(&cs))
        },
    }
}

// ---------------------------------------------------------------------------
// To-big-integer.

/// The engine's to-big-integer coercion, as a mathematical integer: big
/// integers read back, booleans count, text and object-like values go
/// through the integer-literal reading; numbers, null and undefined are
/// refused.
pub open spec fn spec_to_bigint(v: DynView) -> Option<int> {
    match v {
        DynView::BigInt(b) => Some(b as int),
        DynView::Bool(b) => Some(if b { 1int } else { 0int }),
        DynView::Text(s) => big_of_text(s),
        DynView::Array(_) => big_of_text(spec_to_text(v)),
        DynView::Object(_) => big_of_text(spec_to_text(v)),
        DynView::Assoc(_) => big_of_text(spec_to_text(v)),
        _ => None,
    }
}

pub open spec fn big_of_text(s: Seq<char>) -> Option<int> {
    match str_to_big(s) {
        Some(p) => Some(
            if p.0 {
                -(digits_val(p.1) as int)
            } else {
                digits_val(p.1) as int
            },
        ),
        None => None,
    }
}

/// A mathematical integer wrapped into the signed 64-bit range.
pub open spec fn wrap_i64(x: int) -> i64 {
    let m = x % 0x1_0000_0000_0000_0000;
    if m >= 0x8000_0000_0000_0000 {
        (m - 0x1_0000_0000_0000_0000) as i64
    } else {
        m as i64
    }
}

/// The engine's to-big-integer coercion, read back wrapped to 64 signed
/// bits, as the engine binding hands big integers out.
pub fn to_bigint_i64(v: &DynValue) -> (r: Option<i64>)
    requires
        v.wf(),
    ensures
        match r {
            Some(x) => spec_to_bigint(v.deep_view()) matches Some(b) && x == wrap_i64(b),
            None => spec_to_bigint(v.deep_view()) is None,
        },
{
    match v {
        DynValue::BigInt(b) => {
            proof {
                lemma_wrap_i64_identity(*b);
            }
            Some(*b)
        },
        DynValue::Bool(b) => Some(
            if *b {
                1
            } else {
                0
            },
        ),
        DynValue::Text(s) => {
            let cs = str_chars(s.as_str());
            big_text_to_i64(&cs)
        },
        DynValue::Array(_) | DynValue::Object(_) | DynValue::Assoc(_) => {
            let t = to_text(v);
            let cs = str_chars(t.as_str());
            big_text_to_i64(&cs)
        },
        _ => None,
    }
}

/// Wrapping a value already in range is the identity.
pub proof fn lemma_wrap_i64_identity(b: i64)
    ensures
        wrap_i64(b as int) == b,
{
    if b >= 0 {
        vstd::arithmetic::div_mod::lemma_small_mod(b as nat, 0x1_0000_0000_0000_0000);
    } else {
        vstd::arithmetic::div_mod::lemma_mod_multiples_vanish(
            1,
            b as int,
            0x1_0000_0000_0000_0000,
        );
        vstd::arithmetic::div_mod::lemma_small_mod(
            (b + 0x1_0000_0000_0000_0000) as nat,
            0x1_0000_0000_0000_0000,
        );
    }
}

fn big_text_to_i64(cs: &Vec<char>) -> (r: Option<i64>)
    ensures
        match r {
            Some(x) => big_of_text(cs@) matches Some(b) && x == wrap_i64(b),
            None => big_of_text(cs@) is None,
        },
{
    match big_of_chars(cs) {
        None => None,
        Some((neg, ds)) => {
            let m = digits_mod64(&ds);
            let ghost dv = digits_val(ds@);
            let m2: u64 = if neg {
                if m == 0 {
                    0
                } else {
                    (0xFFFF_FFFF_FFFF_FFFFu64 - m) + 1
                }
            } else {
                m
            };
            proof {
                if neg {
                    lemma_neg_mod(dv as int, 0x1_0000_0000_0000_0000);
                    if m == 0 {
                        vstd::arithmetic::div_mod::lemma_mod_multiples_basic(
                            1,
                            0x1_0000_0000_0000_0000,
                        );
                    } else {
                        vstd::arithmetic::div_mod::lemma_small_mod(
                            (0x1_0000_0000_0000_0000 - m) as nat,
                            0x1_0000_0000_0000_0000,
                        );
                    }
                }
            }
            if m2 >= 0x8000_0000_0000_0000 {
                let diff: u64 = m2 - 0x8000_0000_0000_0000;
                Some(i64::MIN + (diff as i64))
            } else {
                Some(m2 as i64)
            }
        },
    }
}

} // verus!
