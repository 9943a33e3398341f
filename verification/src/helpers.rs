use vstd::prelude::*;
use crate::coerce::{
    spec_to_bigint, spec_to_int32, spec_to_number, spec_to_text, spec_truthy, to_bigint_i64,
    to_int32, to_number, to_text, truthy, wrap_i64,
};
use crate::errors::{Error, ErrorSpec};
use crate::number::{num_is_uint32, num_uint32_val, uint32_checked, JsNumber, NumSpec};
use crate::value::{DynValue, DynView};

verus! {

// The scalar decoding layer. Most scalar decoders are lenient, mirroring
// the engine's own implicit coercion; only fixed-width integer narrowing
// and the coercions the engine itself refuses can fail.

/// Outcome of a result-bearing decode, at the spec level.
pub open spec fn res_view<T: DeepView>(r: Result<T, Error>) -> Result<T::V, ErrorSpec> {
    match r {
        Ok(x) => Ok(x.deep_view()),
        Err(e) => Err(e.deep_view()),
    }
}

/// Boolean decoding: the engine's truthiness coercion; never fails.
pub open spec fn spec_try_as_bool(v: DynView) -> Result<bool, ErrorSpec> {
    Ok(spec_truthy(v))
}

pub fn try_as_bool(input: &DynValue) -> (r: Result<bool, Error>)
    ensures
        res_view(r) == spec_try_as_bool(input.deep_view()),
{
    Ok(truthy(input))
}

/// Text decoding: the engine's to-string coercion; never fails.
pub open spec fn spec_try_as_string(v: DynView) -> Result<Seq<char>, ErrorSpec> {
    Ok(spec_to_text(v))
}

pub fn try_as_string(input: &DynValue) -> (r: Result<String, Error>)
    requires
        input.wf(),
    ensures
        res_view(r) == spec_try_as_string(input.deep_view()),
{
    Ok(to_text(input))
}

/// Signed 32-bit decoding: the engine's numeric coercion with truncation
/// and 32-bit wrapping; never fails.
pub open spec fn spec_try_as_i32(v: DynView) -> Result<i32, ErrorSpec> {
    Ok(spec_to_int32(v))
}

pub fn try_as_i32(input: &DynValue) -> (r: Result<i32, Error>)
    requires
        input.wf(),
    ensures
        res_view(r) == spec_try_as_i32(input.deep_view()),
{
    Ok(to_int32(input))
}

/// Signed 8-bit decoding: the signed 32-bit path, narrowed; values that do
/// not fit in 8 bits are out of range.
pub open spec fn spec_try_as_i8(v: DynView) -> Result<i8, ErrorSpec> {
    let i = spec_to_int32(v);
    if -128 <= i <= 127 {
        Ok(i as i8)
    } else {
        Err(ErrorSpec::OutOfRange)
    }
}

pub fn try_as_i8(input: &DynValue) -> (r: Result<i8, Error>)
    requires
        input.wf(),
    ensures
        res_view(r) == spec_try_as_i8(input.deep_view()),
{
    let i = to_int32(input);
    if -128 <= i && i <= 127 {
        Ok(i as i8)
    } else {
        Err(Error::OutOfRange)
    }
}

/// Whether the engine reports the value as an unsigned 32-bit integer.
pub open spec fn reports_uint32(v: DynView) -> bool {
    match v {
        DynView::Uint32(_) => true,
        DynView::Int32(i) => i >= 0,
        DynView::Number(n) => num_is_uint32(n),
        _ => false,
    }
}

pub open spec fn uint32_of(v: DynView) -> u32 {
    match v {
        DynView::Uint32(u) => u,
        DynView::Int32(i) => i as u32,
        DynView::Number(n) => num_uint32_val(n),
        _ => 0,
    }
}

/// Unsigned 32-bit decoding: a value the engine already reports as an
/// unsigned 32-bit integer is returned directly; null and undefined give 0;
/// anything else goes through the big-integer coercion, and is out of range
/// when negative or beyond 32 bits.
pub open spec fn spec_try_as_u32(v: DynView) -> Result<u32, ErrorSpec> {
    if reports_uint32(v) {
        Ok(uint32_of(v))
    } else if v == DynView::Null || v == DynView::Undefined {
        Ok(0)
    } else {
        match spec_to_bigint(v) {
            Some(b) => if b < 0 || b > 0xFFFF_FFFF {
                Err(ErrorSpec::OutOfRange)
            } else {
                Ok(b as u32)
            },
            None => Err(ErrorSpec::ExpectedU32),
        }
    }
}

pub fn try_as_u32(input: &DynValue) -> (r: Result<u32, Error>)
    requires
        input.wf(),
    ensures
        res_view(r) == spec_try_as_u32(input.deep_view()),
{
    match input {
        DynValue::Uint32(u) => Ok(*u),
        DynValue::Int32(i) => {
            if *i >= 0 {
                Ok(*i as u32)
            } else {
                // a negative 32-bit value is a number, and the engine
                // refuses the big-integer coercion of a number
                Err(Error::ExpectedU32)
            }
        },
        DynValue::Number(n) => {
            match uint32_checked(n) {
                Some(u) => Ok(u),
                None => Err(Error::ExpectedU32),
            }
        },
        DynValue::Null => Ok(0),
        DynValue::Undefined => Ok(0),
        _ => u32_from_bigint(input),
    }
}

/// The big-integer branch of unsigned 32-bit decoding.
fn u32_from_bigint(input: &DynValue) -> (r: Result<u32, Error>)
    requires
        input.wf(),
        !reports_uint32(input.deep_view()),
        input.deep_view() != DynView::Null,
        input.deep_view() != DynView::Undefined,
    ensures
        res_view(r) == spec_try_as_u32(input.deep_view()),
{
    match input {
        DynValue::BigInt(b) => {
            if *b < 0 || *b > 0xFFFF_FFFF {
                Err(Error::OutOfRange)
            } else {
                Ok(*b as u32)
            }
        },
        DynValue::Bool(b) => Ok(
            if *b {
                1
            } else {
                0
            },
        ),
        DynValue::Text(s) => {
            let cs = crate::parse::str_chars(s.as_str());
            u32_from_big_text(&cs)
        },
        DynValue::Array(_) | DynValue::Object(_) | DynValue::Assoc(_) => {
            let t = to_text(input);
            let cs = crate::parse::str_chars(t.as_str());
            u32_from_big_text(&cs)
        },
        _ => Err(Error::ExpectedU32),
    }
}

fn u32_from_big_text(cs: &Vec<char>) -> (r: Result<u32, Error>)
    ensures
        res_view(r) == match crate::coerce::big_of_text(cs@) {
            Some(b) => if b < 0 || b > 0xFFFF_FFFF {
                Err::<u32, ErrorSpec>(ErrorSpec::OutOfRange)
            } else {
                Ok::<u32, ErrorSpec>(b as u32)
            },
            None => Err::<u32, ErrorSpec>(ErrorSpec::ExpectedU32),
        },
{
    match crate::parse::big_of_chars(cs) {
        None => Err(Error::ExpectedU32),
        Some((neg, ds)) => {
            let sat = crate::number::digits_val_sat(&ds);
            proof {
                crate::number::lemma_digits_val_capped(ds@);
            }
            if neg {
                if sat == 0 {
                    Ok(0)
                } else {
                    Err(Error::OutOfRange)
                }
            } else if sat > 0xFFFF_FFFF {
                Err(Error::OutOfRange)
            } else {
                Ok(sat as u32)
            }
        },
    }
}

/// Signed 64-bit decoding: always routed through the engine's
/// big-integer coercion, wrapped to 64 bits; fails where that coercion is
/// refused.
pub open spec fn spec_try_as_i64(v: DynView) -> Result<i64, ErrorSpec> {
    match spec_to_bigint(v) {
        Some(b) => Ok(wrap_i64(b)),
        None => Err(ErrorSpec::ExpectedI64),
    }
}

pub fn try_as_i64(input: &DynValue) -> (r: Result<i64, Error>)
    requires
        input.wf(),
    ensures
        res_view(r) == spec_try_as_i64(input.deep_view()),
{
    match to_bigint_i64(input) {
        Some(x) => Ok(x),
        None => Err(Error::ExpectedI64),
    }
}

/// Number decoding: the engine's numeric coercion; fails only where the
/// engine cannot produce a number at all.
pub open spec fn spec_try_as_f64(v: DynView) -> Result<NumSpec, ErrorSpec> {
    match spec_to_number(v) {
        Some(n) => Ok(n),
        None => Err(ErrorSpec::ExpectedF64),
    }
}

pub fn try_as_f64(input: &DynValue) -> (r: Result<JsNumber, Error>)
    requires
        input.wf(),
    ensures
        res_view(r) == spec_try_as_f64(input.deep_view()),
        r matches Ok(n) ==> n.wf(),
{
    match to_number(input) {
        Some(n) => Ok(n),
        None => Err(Error::ExpectedF64),
    }
}

/// Narrow number decoding: the number path; the model's numbers are exact
/// decimals, so no narrowing step is applied.
pub fn try_as_f32(input: &DynValue) -> (r: Result<JsNumber, Error>)
    requires
        input.wf(),
    ensures
        res_view(r) == spec_try_as_f64(input.deep_view()),
        r matches Ok(n) ==> n.wf(),
{
    try_as_f64(input)
}

} // verus!
