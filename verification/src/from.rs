use vstd::prelude::*;
use crate::coerce::spec_to_text;
use crate::coerce::to_text;
use crate::errors::{Error, ErrorSpec};
use crate::json::{TreeValue, TreeView};
use crate::helpers::{
    res_view, spec_try_as_bool, spec_try_as_f64, spec_try_as_i32, spec_try_as_i64,
    spec_try_as_i8, spec_try_as_string, spec_try_as_u32, try_as_bool, try_as_f64, try_as_i32,
    try_as_i64, try_as_i8, try_as_string, try_as_u32,
};
use crate::mapping::{assoc_set, StringMap};
use crate::number::JsNumber;
use crate::value::{
    dyn_view, dyn_view_pairs, dyn_view_props, dyn_view_seq, dyn_wf_pairs, dyn_wf_props,
    dyn_wf_seq, lemma_dyn_view_pairs, lemma_dyn_view_props, lemma_dyn_view_seq,
    lemma_dyn_wf_pairs_index, lemma_dyn_wf_props_index, lemma_dyn_wf_seq_index, obj_lookup,
    object_get, DynValue, DynView,
};

verus! {

// Decoding: the capability a native type implements to be read out of a
// dynamic value. Containers decode recursively and fail fast: the first
// failing element aborts the whole decode with that element's error.

/// Decodable from a dynamic value.
pub trait TryFromValue: DeepView + Sized {
    /// What decoding yields, for every dynamic value.
    spec fn from_value_spec(v: DynView) -> Result<Self::V, ErrorSpec>;

    /// Decodes a dynamic value into this type.
    fn try_from_value(input: &DynValue) -> (r: Result<Self, Error>)
        requires
            input.wf(),
        ensures
            res_view(r) == Self::from_value_spec(input.deep_view()),
    ;
}

impl TryFromValue for bool {
    open spec fn from_value_spec(v: DynView) -> Result<bool, ErrorSpec> {
        spec_try_as_bool(v)
    }

    fn try_from_value(input: &DynValue) -> (r: Result<bool, Error>) {
        try_as_bool(input)
    }
}

impl TryFromValue for String {
    open spec fn from_value_spec(v: DynView) -> Result<Seq<char>, ErrorSpec> {
        spec_try_as_string(v)
    }

    fn try_from_value(input: &DynValue) -> (r: Result<String, Error>) {
        try_as_string(input)
    }
}

impl TryFromValue for i8 {
    open spec fn from_value_spec(v: DynView) -> Result<i8, ErrorSpec> {
        spec_try_as_i8(v)
    }

    fn try_from_value(input: &DynValue) -> (r: Result<i8, Error>) {
        try_as_i8(input)
    }
}

impl TryFromValue for i32 {
    open spec fn from_value_spec(v: DynView) -> Result<i32, ErrorSpec> {
        spec_try_as_i32(v)
    }

    fn try_from_value(input: &DynValue) -> (r: Result<i32, Error>) {
        try_as_i32(input)
    }
}

impl TryFromValue for u32 {
    open spec fn from_value_spec(v: DynView) -> Result<u32, ErrorSpec> {
        spec_try_as_u32(v)
    }

    fn try_from_value(input: &DynValue) -> (r: Result<u32, Error>) {
        try_as_u32(input)
    }
}

impl TryFromValue for i64 {
    open spec fn from_value_spec(v: DynView) -> Result<i64, ErrorSpec> {
        spec_try_as_i64(v)
    }

    fn try_from_value(input: &DynValue) -> (r: Result<i64, Error>) {
        try_as_i64(input)
    }
}

impl TryFromValue for JsNumber {
    open spec fn from_value_spec(v: DynView) -> Result<<JsNumber as DeepView>::V, ErrorSpec> {
        spec_try_as_f64(v)
    }

    fn try_from_value(input: &DynValue) -> (r: Result<JsNumber, Error>) {
        try_as_f64(input)
    }
}

impl TryFromValue for TreeValue {
    /// The tree-value bridge, decode direction.
    open spec fn from_value_spec(v: DynView) -> Result<TreeView, ErrorSpec> {
        crate::json::spec_dyn_to_tree(v)
    }

    fn try_from_value(input: &DynValue) -> (r: Result<TreeValue, Error>) {
        crate::json::dynamic_to_tree(input)
    }
}

impl<T: TryFromValue> TryFromValue for Option<T> {
    /// Null and undefined decode to nothing without invoking the inner
    /// decoder; anything else decodes through it.
    open spec fn from_value_spec(v: DynView) -> Result<Option<T::V>, ErrorSpec> {
        if v == DynView::Null || v == DynView::Undefined {
            Ok(None)
        } else {
            match T::from_value_spec(v) {
                Ok(x) => Ok(Some(x)),
                Err(e) => Err(e),
            }
        }
    }

    fn try_from_value(input: &DynValue) -> (r: Result<Option<T>, Error>) {
        match input {
            DynValue::Null => Ok(None),
            DynValue::Undefined => Ok(None),
            _ => match T::try_from_value(input) {
                Ok(x) => Ok(Some(x)),
                Err(e) => Err(e),
            },
        }
    }
}

/// Element-wise decoding of an array's contents, in index order,
/// aborting on the first failure.
pub open spec fn seq_from_spec<T: TryFromValue>(items: Seq<DynView>) -> Result<
    Seq<T::V>,
    ErrorSpec,
>
    decreases items.len(),
{
    if items.len() == 0 {
        Ok(Seq::empty())
    } else {
        match seq_from_spec::<T>(items.drop_last()) {
            Err(e) => Err(e),
            Ok(pre) => match T::from_value_spec(items.last()) {
                Ok(x) => Ok(pre.push(x)),
                Err(e) => Err(e),
            },
        }
    }
}

/// A failing prefix decides the whole sequence decode.
proof fn lemma_seq_prefix_err<T: TryFromValue>(items: Seq<DynView>, k: int)
    requires
        0 <= k <= items.len(),
        seq_from_spec::<T>(items.subrange(0, k)) is Err,
    ensures
        seq_from_spec::<T>(items) == seq_from_spec::<T>(items.subrange(0, k)),
    decreases items.len() - k,
{
    if k == items.len() {
        assert(items.subrange(0, k) =~= items);
    } else {
        assert(items.subrange(0, k + 1).drop_last() =~= items.subrange(0, k));
        lemma_seq_prefix_err::<T>(items, k + 1);
    }
}

impl<T: TryFromValue> TryFromValue for Vec<T> {
    /// Anything not array-shaped is rejected; elements decode in index
    /// order, and the first failing element aborts the whole decode.
    open spec fn from_value_spec(v: DynView) -> Result<Seq<T::V>, ErrorSpec> {
        match v {
            DynView::Array(items) => seq_from_spec::<T>(items),
            _ => Err(ErrorSpec::ExpectedArray),
        }
    }

    fn try_from_value(input: &DynValue) -> (r: Result<Vec<T>, Error>) {
        match input {
            DynValue::Array(items) => {
                let ghost iv = dyn_view_seq(items@);
                proof {
                    lemma_dyn_view_seq(items@);
                }
                let len = items.len();
                let mut out: Vec<T> = Vec::new();
                let mut i: usize = 0;
                proof {
                    assert(iv.subrange(0, 0) =~= Seq::<DynView>::empty());
                    assert(out.deep_view() =~= Seq::<T::V>::empty());
                }
                while i < len
                    invariant
                        i <= len,
                        len == items@.len(),
                        iv == dyn_view_seq(items@),
                        dyn_view(*input) == DynView::Array(iv),
                        iv.len() == len,
                        forall|k: int| 0 <= k < len ==> iv[k] == dyn_view(items@[k]),
                        dyn_wf_seq(iv),
                        seq_from_spec::<T>(iv.subrange(0, i as int)) == Ok::<_, ErrorSpec>(
                            out.deep_view(),
                        ),
                    decreases len - i,
                {
                    proof {
                        lemma_dyn_wf_seq_index(iv, i as int);
                    }
                    match T::try_from_value(&items[i]) {
                        Ok(x) => {
                            let ghost out_pre = out.deep_view();
                            out.push(x);
                            proof {
                                assert(iv.subrange(0, (i + 1) as int).drop_last() =~= iv.subrange(
                                    0,
                                    i as int,
                                ));
                                assert(iv.subrange(0, (i + 1) as int).last() == iv[i as int]);
                                assert(out.deep_view() =~= out_pre.push(x.deep_view()));
                            }
                        },
                        Err(e) => {
                            proof {
                                assert(iv.subrange(0, (i + 1) as int).drop_last() =~= iv.subrange(
                                    0,
                                    i as int,
                                ));
                                assert(iv.subrange(0, (i + 1) as int).last() == iv[i as int]);
                                assert(seq_from_spec::<T>(iv.subrange(0, i as int + 1))
                                    == Err::<Seq<T::V>, _>(e.deep_view()));
                                lemma_seq_prefix_err::<T>(iv, i as int + 1);
                            }
                            return Err(e);
                        },
                    }
                    i = i + 1;
                }
                proof {
                    assert(iv.subrange(0, len as int) =~= iv);
                }
                Ok(out)
            },
            _ => Err(Error::ExpectedArray),
        }
    }
}

/// Entry-wise decoding of an object's own properties into a mapping:
/// later entries with an equal key overwrite earlier ones.
pub open spec fn map_from_props_spec<T: TryFromValue>(props: Seq<(Seq<char>, DynView)>) -> Result<
    Seq<(Seq<char>, T::V)>,
    ErrorSpec,
>
    decreases props.len(),
{
    if props.len() == 0 {
        Ok(Seq::empty())
    } else {
        match map_from_props_spec::<T>(props.drop_last()) {
            Err(e) => Err(e),
            Ok(pre) => match T::from_value_spec(props.last().1) {
                Ok(x) => Ok(assoc_set(pre, props.last().0, x)),
                Err(e) => Err(e),
            },
        }
    }
}

/// Entry-wise decoding of an associative map's pairs: each key is read
/// through the engine's to-string coercion.
pub open spec fn map_from_pairs_spec<T: TryFromValue>(pairs: Seq<(DynView, DynView)>) -> Result<
    Seq<(Seq<char>, T::V)>,
    ErrorSpec,
>
    decreases pairs.len(),
{
    if pairs.len() == 0 {
        Ok(Seq::empty())
    } else {
        match map_from_pairs_spec::<T>(pairs.drop_last()) {
            Err(e) => Err(e),
            Ok(pre) => match T::from_value_spec(pairs.last().1) {
                Ok(x) => Ok(assoc_set(pre, spec_to_text(pairs.last().0), x)),
                Err(e) => Err(e),
            },
        }
    }
}

proof fn lemma_props_prefix_err<T: TryFromValue>(props: Seq<(Seq<char>, DynView)>, k: int)
    requires
        0 <= k <= props.len(),
        map_from_props_spec::<T>(props.subrange(0, k)) is Err,
    ensures
        map_from_props_spec::<T>(props) == map_from_props_spec::<T>(props.subrange(0, k)),
    decreases props.len() - k,
{
    if k == props.len() {
        assert(props.subrange(0, k) =~= props);
    } else {
        assert(props.subrange(0, k + 1).drop_last() =~= props.subrange(0, k));
        lemma_props_prefix_err::<T>(props, k + 1);
    }
}

proof fn lemma_pairs_prefix_err<T: TryFromValue>(pairs: Seq<(DynView, DynView)>, k: int)
    requires
        0 <= k <= pairs.len(),
        map_from_pairs_spec::<T>(pairs.subrange(0, k)) is Err,
    ensures
        map_from_pairs_spec::<T>(pairs) == map_from_pairs_spec::<T>(pairs.subrange(0, k)),
    decreases pairs.len() - k,
{
    if k == pairs.len() {
        assert(pairs.subrange(0, k) =~= pairs);
    } else {
        assert(pairs.subrange(0, k + 1).drop_last() =~= pairs.subrange(0, k));
        lemma_pairs_prefix_err::<T>(pairs, k + 1);
    }
}

impl<T: TryFromValue> TryFromValue for StringMap<T> {
    /// A plain object and an associative map both decode; anything else is
    /// rejected. Keys of an associative map are read through the engine's
    /// to-string coercion; an object's keys are already text.
    open spec fn from_value_spec(v: DynView) -> Result<Seq<(Seq<char>, T::V)>, ErrorSpec> {
        match v {
            DynView::Object(props) => map_from_props_spec::<T>(props),
            DynView::Assoc(pairs) => map_from_pairs_spec::<T>(pairs),
            _ => Err(ErrorSpec::ExpectedMap),
        }
    }

    fn try_from_value(input: &DynValue) -> (r: Result<StringMap<T>, Error>) {
        match input {
            DynValue::Object(props) => {
                let ghost pv = dyn_view_props(props@);
                proof {
                    lemma_dyn_view_props(props@);
                }
                let len = props.len();
                let mut out: StringMap<T> = StringMap::new();
                let mut i: usize = 0;
                proof {
                    assert(pv.subrange(0, 0) =~= Seq::<(Seq<char>, DynView)>::empty());
                }
                while i < len
                    invariant
                        i <= len,
                        len == props@.len(),
                        pv == dyn_view_props(props@),
                        dyn_view(*input) == DynView::Object(pv),
                        pv.len() == len,
                        forall|k: int|
                            0 <= k < len ==> pv[k] == (props@[k].0@, dyn_view(props@[k].1)),
                        dyn_wf_props(pv),
                        map_from_props_spec::<T>(pv.subrange(0, i as int)) == Ok::<_, ErrorSpec>(
                            out.deep_view(),
                        ),
                        out.wf(),
                    decreases len - i,
                {
                    proof {
                        lemma_dyn_wf_props_index(pv, i as int);
                        assert(pv.subrange(0, (i + 1) as int).drop_last() =~= pv.subrange(
                            0,
                            i as int,
                        ));
                        assert(pv.subrange(0, (i + 1) as int).last() == pv[i as int]);
                    }
                    match T::try_from_value(&props[i].1) {
                        Ok(x) => {
                            let key = props[i].0.clone();
                            out.insert(key, x);
                        },
                        Err(e) => {
                            proof {
                                lemma_props_prefix_err::<T>(pv, i as int + 1);
                            }
                            return Err(e);
                        },
                    }
                    i = i + 1;
                }
                proof {
                    assert(pv.subrange(0, len as int) =~= pv);
                }
                Ok(out)
            },
            DynValue::Assoc(pairs) => {
                let ghost pv = dyn_view_pairs(pairs@);
                proof {
                    lemma_dyn_view_pairs(pairs@);
                }
                let len = pairs.len();
                let mut out: StringMap<T> = StringMap::new();
                let mut i: usize = 0;
                proof {
                    assert(pv.subrange(0, 0) =~= Seq::<(DynView, DynView)>::empty());
                }
                while i < len
                    invariant
                        i <= len,
                        len == pairs@.len(),
                        pv == dyn_view_pairs(pairs@),
                        dyn_view(*input) == DynView::Assoc(pv),
                        pv.len() == len,
                        forall|k: int|
                            0 <= k < len ==> pv[k] == (dyn_view(pairs@[k].0), dyn_view(
                                pairs@[k].1,
                            )),
                        dyn_wf_pairs(pv),
                        map_from_pairs_spec::<T>(pv.subrange(0, i as int)) == Ok::<_, ErrorSpec>(
                            out.deep_view(),
                        ),
                        out.wf(),
                    decreases len - i,
                {
                    proof {
                        lemma_dyn_wf_pairs_index(pv, i as int);
                        assert(pv.subrange(0, (i + 1) as int).drop_last() =~= pv.subrange(
                            0,
                            i as int,
                        ));
                        assert(pv.subrange(0, (i + 1) as int).last() == pv[i as int]);
                    }
                    match T::try_from_value(&pairs[i].1) {
                        Ok(x) => {
                            let key = to_text(&pairs[i].0);
                            out.insert(key, x);
                        },
                        Err(e) => {
                            proof {
                                lemma_pairs_prefix_err::<T>(pv, i as int + 1);
                            }
                            return Err(e);
                        },
                    }
                    i = i + 1;
                }
                proof {
                    assert(pv.subrange(0, len as int) =~= pv);
                }
                Ok(out)
            },
            _ => Err(Error::ExpectedMap),
        }
    }
}

// ---------------------------------------------------------------------------
// The field access protocol.

/// Plain field access: the input must be object-shaped; a missing property
/// is a field-not-found failure, distinct from a property holding null.
pub open spec fn spec_get_field<T: TryFromValue>(name: Seq<char>, v: DynView) -> Result<
    T::V,
    ErrorSpec,
> {
    match v {
        DynView::Object(props) => match obj_lookup(props, name) {
            Some(fv) => T::from_value_spec(fv),
            None => Err(ErrorSpec::FieldNotFound(name)),
        },
        DynView::Array(_) => Err(ErrorSpec::FieldNotFound(name)),
        DynView::Assoc(_) => Err(ErrorSpec::FieldNotFound(name)),
        _ => Err(ErrorSpec::ExpectedObject),
    }
}

/// Optional field access: a missing property, or one holding null or
/// undefined, yields nothing without invoking the decoder.
pub open spec fn spec_get_optional_field<T: TryFromValue>(name: Seq<char>, v: DynView) -> Result<
    Option<T::V>,
    ErrorSpec,
> {
    match v {
        DynView::Object(props) => match obj_lookup(props, name) {
            Some(fv) => if fv == DynView::Null || fv == DynView::Undefined {
                Ok(None)
            } else {
                match T::from_value_spec(fv) {
                    Ok(x) => Ok(Some(x)),
                    Err(e) => Err(e),
                }
            },
            None => Ok(None),
        },
        DynView::Array(_) => Ok(None),
        DynView::Assoc(_) => Ok(None),
        _ => Err(ErrorSpec::ExpectedObject),
    }
}

/// Looks a mandatory field up on an object-shaped value and decodes it.
pub fn get_field_as<T: TryFromValue>(field_name: &String, input: &DynValue) -> (r: Result<
    T,
    Error,
>)
    requires
        input.wf(),
    ensures
        res_view(r) == spec_get_field::<T>(field_name@, input.deep_view()),
{
    match input {
        DynValue::Object(props) => {
            proof {
                lemma_dyn_view_props(props@);
            }
            match object_get(props, field_name) {
                Some(fv) => {
                    proof {
                        let pv = dyn_view_props(props@);
                        let idx = crate::value::obj_index_from(pv, field_name@, 0);
                        lemma_obj_index_bounds(pv, field_name@, 0);
                        lemma_dyn_wf_props_index(pv, idx);
                    }
                    T::try_from_value(fv)
                },
                None => Err(Error::FieldNotFound(field_name.clone())),
            }
        },
        DynValue::Array(_) => Err(Error::FieldNotFound(field_name.clone())),
        DynValue::Assoc(_) => Err(Error::FieldNotFound(field_name.clone())),
        _ => Err(Error::ExpectedObject),
    }
}

/// Looks an optional field up on an object-shaped value; absent, null and
/// undefined yield nothing.
pub fn get_optional_field_as<T: TryFromValue>(field_name: &String, input: &DynValue) -> (r: Result<
    Option<T>,
    Error,
>)
    requires
        input.wf(),
    ensures
        res_view(r) == spec_get_optional_field::<T>(field_name@, input.deep_view()),
{
    match input {
        DynValue::Object(props) => {
            proof {
                lemma_dyn_view_props(props@);
            }
            match object_get(props, field_name) {
                Some(fv) => {
                    proof {
                        let pv = dyn_view_props(props@);
                        let idx = crate::value::obj_index_from(pv, field_name@, 0);
                        lemma_obj_index_bounds(pv, field_name@, 0);
                        lemma_dyn_wf_props_index(pv, idx);
                    }
                    match fv {
                        DynValue::Null => Ok(None),
                        DynValue::Undefined => Ok(None),
                        _ => match T::try_from_value(fv) {
                            Ok(x) => Ok(Some(x)),
                            Err(e) => Err(e),
                        },
                    }
                },
                None => Ok(None),
            }
        },
        DynValue::Array(_) => Ok(None),
        DynValue::Assoc(_) => Ok(None),
        _ => Err(Error::ExpectedObject),
    }
}

proof fn lemma_obj_index_bounds(props: Seq<(Seq<char>, DynView)>, key: Seq<char>, i: int)
    requires
        0 <= i <= props.len(),
    ensures
        i <= crate::value::obj_index_from(props, key, i) <= props.len(),
    decreases props.len() - i,
{
    if i < props.len() && props[i].0 != key {
        lemma_obj_index_bounds(props, key, i + 1);
    }
}

/// Decodes an array-shaped value element by element.
pub fn try_as_vec<T: TryFromValue>(input: &DynValue) -> (r: Result<Vec<T>, Error>)
    requires
        input.wf(),
    ensures
        res_view(r) == <Vec<T> as TryFromValue>::from_value_spec(input.deep_view()),
{
    <Vec<T> as TryFromValue>::try_from_value(input)
}

/// Decodes an object- or map-shaped value into a text-keyed mapping.
pub fn try_as_hashmap<T: TryFromValue>(input: &DynValue) -> (r: Result<StringMap<T>, Error>)
    requires
        input.wf(),
    ensures
        res_view(r) == <StringMap<T> as TryFromValue>::from_value_spec(input.deep_view()),
{
    <StringMap<T> as TryFromValue>::try_from_value(input)
}

} // verus!
