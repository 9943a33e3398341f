use vstd::prelude::*;
use crate::coerce::{spec_to_int32, spec_to_text, spec_truthy, to_int32, to_text, truthy};
use crate::errors::{Error, ErrorSpec};
use crate::helpers::{
    spec_try_as_f64, spec_try_as_i64, spec_try_as_i8, spec_try_as_u32, try_as_f64, try_as_i64,
    try_as_i8, try_as_u32,
};
use crate::json::{
    dynamic_to_tree, spec_dyn_to_tree, tree_to_dynamic, spec_tree_to_dyn, tree_wf, TreeValue,
    TreeView, tree_view,
};
use crate::mapping::{assoc_set, lemma_assoc_index_bounds};
use crate::number::{num_spec_wf, JsNumber, NumSpec};
use crate::value::{
    dyn_view, dyn_view_pairs, dyn_view_props, dyn_view_seq, dyn_wf, dyn_wf_pairs, dyn_wf_props,
    dyn_wf_seq, lemma_dyn_view_pairs, lemma_dyn_view_props, lemma_dyn_view_seq,
    lemma_dyn_wf_pairs_index, lemma_dyn_wf_props_index, lemma_dyn_wf_seq_index, obj_lookup,
    object_get, obj_index_from, DynValue, DynView,
};

verus! {

// The derivation layer: a record type is described by its field list, and
// the decoder and encoder for any described type are driven by that
// description. Decoding a record reads one field after the other through
// the field access protocol and is all-or-nothing: the first failing field
// aborts the record with that field's error. Encoding writes one named
// property per field, in declaration order, onto a fresh object.

/// Spec-level type description.
pub enum TypeView {
    Bool,
    I8,
    I32,
    U32,
    I64,
    F64,
    F32,
    Text,
    Optional(Box<TypeView>),
    Sequence(Box<TypeView>),
    MappingOf(Box<TypeView>),
    Tree,
    Record(Seq<(Seq<char>, TypeView)>),
}

/// A static type reference: what a field or value is declared to be.
#[derive(Debug)]
pub enum TypeDesc {
    Bool,
    I8,
    I32,
    U32,
    I64,
    F64,
    F32,
    Text,
    Optional(Box<TypeDesc>),
    Sequence(Box<TypeDesc>),
    MappingOf(Box<TypeDesc>),
    Tree,
    Record(Vec<Field>),
}

/// A field descriptor: the field's name and its declared type.
#[derive(Debug)]
pub struct Field {
    pub name: String,
    pub ty: TypeDesc,
}

pub open spec fn type_view(t: TypeDesc) -> TypeView
    decreases t,
{
    match t {
        TypeDesc::Bool => TypeView::Bool,
        TypeDesc::I8 => TypeView::I8,
        TypeDesc::I32 => TypeView::I32,
        TypeDesc::U32 => TypeView::U32,
        TypeDesc::I64 => TypeView::I64,
        TypeDesc::F64 => TypeView::F64,
        TypeDesc::F32 => TypeView::F32,
        TypeDesc::Text => TypeView::Text,
        TypeDesc::Optional(b) => TypeView::Optional(Box::new(type_view(*b))),
        TypeDesc::Sequence(b) => TypeView::Sequence(Box::new(type_view(*b))),
        TypeDesc::MappingOf(b) => TypeView::MappingOf(Box::new(type_view(*b))),
        TypeDesc::Tree => TypeView::Tree,
        TypeDesc::Record(fields) => TypeView::Record(fields_view(fields@)),
    }
}

pub open spec fn fields_view(fields: Seq<Field>) -> Seq<(Seq<char>, TypeView)>
    decreases fields,
{
    if fields.len() == 0 {
        Seq::empty()
    } else {
        fields_view(fields.drop_last()).push(
            (fields.last().name@, type_view(fields.last().ty)),
        )
    }
}

pub proof fn lemma_fields_view(fields: Seq<Field>)
    ensures
        fields_view(fields).len() == fields.len(),
        forall|i: int|
            0 <= i < fields.len() ==> fields_view(fields)[i] == (
                fields[i].name@,
                type_view(fields[i].ty),
            ),
    decreases fields,
{
    if fields.len() > 0 {
        lemma_fields_view(fields.drop_last());
    }
}

impl DeepView for TypeDesc {
    type V = TypeView;

    open spec fn deep_view(&self) -> TypeView {
        type_view(*self)
    }
}

/// Spec-level native value.
pub enum NativeView {
    Bool(bool),
    I8(i8),
    I32(i32),
    U32(u32),
    I64(i64),
    F64(NumSpec),
    F32(NumSpec),
    Text(Seq<char>),
    Optional(Option<Box<NativeView>>),
    Sequence(Seq<NativeView>),
    MappingOf(Seq<(Seq<char>, NativeView)>),
    Tree(TreeView),
    Record(Seq<(Seq<char>, NativeView)>),
}

/// A native value of a described type.
#[derive(Debug, PartialEq)]
pub enum NativeValue {
    Bool(bool),
    I8(i8),
    I32(i32),
    U32(u32),
    I64(i64),
    F64(JsNumber),
    F32(JsNumber),
    Text(String),
    Optional(Option<Box<NativeValue>>),
    Sequence(Vec<NativeValue>),
    MappingOf(Vec<(String, NativeValue)>),
    Tree(TreeValue),
    Record(Vec<(String, NativeValue)>),
}

pub open spec fn native_view(x: NativeValue) -> NativeView
    decreases x,
{
    match x {
        NativeValue::Bool(b) => NativeView::Bool(b),
        NativeValue::I8(i) => NativeView::I8(i),
        NativeValue::I32(i) => NativeView::I32(i),
        NativeValue::U32(u) => NativeView::U32(u),
        NativeValue::I64(i) => NativeView::I64(i),
        NativeValue::F64(n) => NativeView::F64(n.deep_view()),
        NativeValue::F32(n) => NativeView::F32(n.deep_view()),
        NativeValue::Text(s) => NativeView::Text(s@),
        NativeValue::Optional(o) => match o {
            None => NativeView::Optional(None),
            Some(b) => NativeView::Optional(Some(Box::new(native_view(*b)))),
        },
        NativeValue::Sequence(items) => NativeView::Sequence(native_view_seq(items@)),
        NativeValue::MappingOf(entries) => NativeView::MappingOf(native_view_props(entries@)),
        NativeValue::Tree(t) => NativeView::Tree(tree_view(t)),
        NativeValue::Record(fields) => NativeView::Record(native_view_props(fields@)),
    }
}

pub open spec fn native_view_seq(s: Seq<NativeValue>) -> Seq<NativeView>
    decreases s,
{
    if s.len() == 0 {
        Seq::empty()
    } else {
        native_view_seq(s.drop_last()).push(native_view(s.last()))
    }
}

pub open spec fn native_view_props(s: Seq<(String, NativeValue)>) -> Seq<(Seq<char>, NativeView)>
    decreases s,
{
    if s.len() == 0 {
        Seq::empty()
    } else {
        native_view_props(s.drop_last()).push((s.last().0@, native_view(s.last().1)))
    }
}

pub proof fn lemma_native_view_seq(s: Seq<NativeValue>)
    ensures
        native_view_seq(s).len() == s.len(),
        forall|i: int| 0 <= i < s.len() ==> native_view_seq(s)[i] == native_view(s[i]),
    decreases s,
{
    if s.len() > 0 {
        lemma_native_view_seq(s.drop_last());
    }
}

pub proof fn lemma_native_view_props(s: Seq<(String, NativeValue)>)
    ensures
        native_view_props(s).len() == s.len(),
        forall|i: int|
            0 <= i < s.len() ==> native_view_props(s)[i] == (s[i].0@, native_view(s[i].1)),
    decreases s,
{
    if s.len() > 0 {
        lemma_native_view_props(s.drop_last());
    }
}

impl DeepView for NativeValue {
    type V = NativeView;

    open spec fn deep_view(&self) -> NativeView {
        native_view(*self)
    }
}

// ---------------------------------------------------------------------------
// Decoding, driven by the type description.

/// What decoding a dynamic value at a described type yields, for every
/// description and every value.
pub open spec fn decode_spec(t: TypeView, v: DynView) -> Result<NativeView, ErrorSpec>
    decreases t, 0int,
{
    match t {
        TypeView::Bool => Ok(NativeView::Bool(spec_truthy(v))),
        TypeView::I8 => match spec_try_as_i8(v) {
            Ok(i) => Ok(NativeView::I8(i)),
            Err(e) => Err(e),
        },
        TypeView::I32 => Ok(NativeView::I32(spec_to_int32(v))),
        TypeView::U32 => match spec_try_as_u32(v) {
            Ok(u) => Ok(NativeView::U32(u)),
            Err(e) => Err(e),
        },
        TypeView::I64 => match spec_try_as_i64(v) {
            Ok(i) => Ok(NativeView::I64(i)),
            Err(e) => Err(e),
        },
        TypeView::F64 => match spec_try_as_f64(v) {
            Ok(n) => Ok(NativeView::F64(n)),
            Err(e) => Err(e),
        },
        TypeView::F32 => match spec_try_as_f64(v) {
            Ok(n) => Ok(NativeView::F32(n)),
            Err(e) => Err(e),
        },
        TypeView::Text => Ok(NativeView::Text(spec_to_text(v))),
        TypeView::Optional(t1) => {
            if v == DynView::Null || v == DynView::Undefined {
                Ok(NativeView::Optional(None))
            } else {
                match decode_spec(*t1, v) {
                    Ok(x) => Ok(NativeView::Optional(Some(Box::new(x)))),
                    Err(e) => Err(e),
                }
            }
        },
        TypeView::Sequence(t1) => match v {
            DynView::Array(items) => match decode_seq_spec(*t1, items) {
                Ok(s) => Ok(NativeView::Sequence(s)),
                Err(e) => Err(e),
            },
            _ => Err(ErrorSpec::ExpectedArray),
        },
        TypeView::MappingOf(t1) => match v {
            DynView::Object(props) => match decode_props_spec(*t1, props) {
                Ok(s) => Ok(NativeView::MappingOf(s)),
                Err(e) => Err(e),
            },
            DynView::Assoc(pairs) => match decode_pairs_spec(*t1, pairs) {
                Ok(s) => Ok(NativeView::MappingOf(s)),
                Err(e) => Err(e),
            },
            _ => Err(ErrorSpec::ExpectedMap),
        },
        TypeView::Tree => match spec_dyn_to_tree(v) {
            Ok(tv) => Ok(NativeView::Tree(tv)),
            Err(e) => Err(e),
        },
        TypeView::Record(fields) => match decode_fields_spec(fields, v) {
            Ok(s) => Ok(NativeView::Record(s)),
            Err(e) => Err(e),
        },
    }
}

/// Element-wise decode of an array, in index order, first error aborting.
pub open spec fn decode_seq_spec(t: TypeView, items: Seq<DynView>) -> Result<
    Seq<NativeView>,
    ErrorSpec,
>
    decreases t, items.len() + 1,
{
    if items.len() == 0 {
        Ok(Seq::empty())
    } else {
        match decode_seq_spec(t, items.drop_last()) {
            Err(e) => Err(e),
            Ok(pre) => match decode_spec(t, items.last()) {
                Ok(x) => Ok(pre.push(x)),
                Err(e) => Err(e),
            },
        }
    }
}

/// Entry-wise decode of an object's own properties, later equal keys
/// overwriting earlier ones.
pub open spec fn decode_props_spec(t: TypeView, props: Seq<(Seq<char>, DynView)>) -> Result<
    Seq<(Seq<char>, NativeView)>,
    ErrorSpec,
>
    decreases t, props.len() + 1,
{
    if props.len() == 0 {
        Ok(Seq::empty())
    } else {
        match decode_props_spec(t, props.drop_last()) {
            Err(e) => Err(e),
            Ok(pre) => match decode_spec(t, props.last().1) {
                Ok(x) => Ok(assoc_set(pre, props.last().0, x)),
                Err(e) => Err(e),
            },
        }
    }
}

/// Entry-wise decode of an associative map's pairs, keys read through the
/// engine's to-string coercion.
pub open spec fn decode_pairs_spec(t: TypeView, pairs: Seq<(DynView, DynView)>) -> Result<
    Seq<(Seq<char>, NativeView)>,
    ErrorSpec,
>
    decreases t, pairs.len() + 1,
{
    if pairs.len() == 0 {
        Ok(Seq::empty())
    } else {
        match decode_pairs_spec(t, pairs.drop_last()) {
            Err(e) => Err(e),
            Ok(pre) => match decode_spec(t, pairs.last().1) {
                Ok(x) => Ok(assoc_set(pre, spec_to_text(pairs.last().0), x)),
                Err(e) => Err(e),
            },
        }
    }
}

/// One field's decode, through the plain or the optional accessor.
pub open spec fn decode_field_spec(name: Seq<char>, t: TypeView, v: DynView) -> Result<
    NativeView,
    ErrorSpec,
>
    decreases t, 1int,
{
    match t {
        TypeView::Optional(inner) => match v {
            DynView::Object(props) => match obj_lookup(props, name) {
                Some(fv) => if fv == DynView::Null || fv == DynView::Undefined {
                    Ok(NativeView::Optional(None))
                } else {
                    match decode_spec(*inner, fv) {
                        Ok(x) => Ok(NativeView::Optional(Some(Box::new(x)))),
                        Err(e) => Err(e),
                    }
                },
                None => Ok(NativeView::Optional(None)),
            },
            DynView::Array(_) => Ok(NativeView::Optional(None)),
            DynView::Assoc(_) => Ok(NativeView::Optional(None)),
            _ => Err(ErrorSpec::ExpectedObject),
        },
        _ => match v {
            DynView::Object(props) => match obj_lookup(props, name) {
                Some(fv) => decode_spec(t, fv),
                None => Err(ErrorSpec::FieldNotFound(name)),
            },
            DynView::Array(_) => Err(ErrorSpec::FieldNotFound(name)),
            DynView::Assoc(_) => Err(ErrorSpec::FieldNotFound(name)),
            _ => Err(ErrorSpec::ExpectedObject),
        },
    }
}

/// Field-by-field decode of a record, in declaration order, all-or-nothing:
/// the first failing field decides the outcome.
pub open spec fn decode_fields_spec(fields: Seq<(Seq<char>, TypeView)>, v: DynView) -> Result<
    Seq<(Seq<char>, NativeView)>,
    ErrorSpec,
>
    decreases fields, 0int,
{
    if fields.len() == 0 {
        Ok(Seq::empty())
    } else {
        match decode_fields_spec(fields.drop_last(), v) {
            Err(e) => Err(e),
            Ok(pre) => match decode_field_spec(fields.last().0, fields.last().1, v) {
                Ok(x) => Ok(pre.push((fields.last().0, x))),
                Err(e) => Err(e),
            },
        }
    }
}

// ---------------------------------------------------------------------------
// Well-formedness of native values: every number canonical, every tree
// well formed.

pub open spec fn native_wf(x: NativeView) -> bool
    decreases x,
{
    match x {
        NativeView::F64(n) => num_spec_wf(n),
        NativeView::F32(n) => num_spec_wf(n),
        NativeView::Optional(o) => match o {
            None => true,
            Some(b) => native_wf(*b),
        },
        NativeView::Sequence(s) => native_wf_seq(s),
        NativeView::MappingOf(s) => native_wf_props(s),
        NativeView::Tree(t) => tree_wf(t),
        NativeView::Record(s) => native_wf_props(s),
        _ => true,
    }
}

pub open spec fn native_wf_seq(s: Seq<NativeView>) -> bool
    decreases s,
{
    if s.len() == 0 {
        true
    } else {
        native_wf_seq(s.drop_last()) && native_wf(s.last())
    }
}

pub open spec fn native_wf_props(s: Seq<(Seq<char>, NativeView)>) -> bool
    decreases s,
{
    if s.len() == 0 {
        true
    } else {
        native_wf_props(s.drop_last()) && native_wf(s.last().1)
    }
}

pub proof fn lemma_native_wf_seq_equiv(s: Seq<NativeView>)
    ensures
        native_wf_seq(s) <==> (forall|i: int| 0 <= i < s.len() ==> native_wf(s[i])),
    decreases s,
{
    if s.len() > 0 {
        lemma_native_wf_seq_equiv(s.drop_last());
        assert(forall|i: int| 0 <= i < s.len() - 1 ==> s.drop_last()[i] == s[i]);
        assert(s.last() == s[s.len() - 1]);
    }
}

pub proof fn lemma_native_wf_props_equiv(s: Seq<(Seq<char>, NativeView)>)
    ensures
        native_wf_props(s) <==> (forall|i: int| 0 <= i < s.len() ==> native_wf(s[i].1)),
    decreases s,
{
    if s.len() > 0 {
        lemma_native_wf_props_equiv(s.drop_last());
        assert(forall|i: int| 0 <= i < s.len() - 1 ==> s.drop_last()[i] == s[i]);
        assert(s.last() == s[s.len() - 1]);
    }
}

// ---------------------------------------------------------------------------
// Executable decoding.

proof fn lemma_decode_seq_prefix_err(t: TypeView, items: Seq<DynView>, k: int)
    requires
        0 <= k <= items.len(),
        decode_seq_spec(t, items.subrange(0, k)) is Err,
    ensures
        decode_seq_spec(t, items) == decode_seq_spec(t, items.subrange(0, k)),
    decreases items.len() - k,
{
    if k == items.len() {
        assert(items.subrange(0, k) =~= items);
    } else {
        assert(items.subrange(0, k + 1).drop_last() =~= items.subrange(0, k));
        lemma_decode_seq_prefix_err(t, items, k + 1);
    }
}

proof fn lemma_decode_props_prefix_err(t: TypeView, props: Seq<(Seq<char>, DynView)>, k: int)
    requires
        0 <= k <= props.len(),
        decode_props_spec(t, props.subrange(0, k)) is Err,
    ensures
        decode_props_spec(t, props) == decode_props_spec(t, props.subrange(0, k)),
    decreases props.len() - k,
{
    if k == props.len() {
        assert(props.subrange(0, k) =~= props);
    } else {
        assert(props.subrange(0, k + 1).drop_last() =~= props.subrange(0, k));
        lemma_decode_props_prefix_err(t, props, k + 1);
    }
}

proof fn lemma_decode_pairs_prefix_err(t: TypeView, pairs: Seq<(DynView, DynView)>, k: int)
    requires
        0 <= k <= pairs.len(),
        decode_pairs_spec(t, pairs.subrange(0, k)) is Err,
    ensures
        decode_pairs_spec(t, pairs) == decode_pairs_spec(t, pairs.subrange(0, k)),
    decreases pairs.len() - k,
{
    if k == pairs.len() {
        assert(pairs.subrange(0, k) =~= pairs);
    } else {
        assert(pairs.subrange(0, k + 1).drop_last() =~= pairs.subrange(0, k));
        lemma_decode_pairs_prefix_err(t, pairs, k + 1);
    }
}

pub proof fn lemma_decode_fields_prefix_err(fields: Seq<(Seq<char>, TypeView)>, v: DynView, k: int)
    requires
        0 <= k <= fields.len(),
        decode_fields_spec(fields.subrange(0, k), v) is Err,
    ensures
        decode_fields_spec(fields, v) == decode_fields_spec(fields.subrange(0, k), v),
    decreases fields.len() - k,
{
    if k == fields.len() {
        assert(fields.subrange(0, k) =~= fields);
    } else {
        assert(fields.subrange(0, k + 1).drop_last() =~= fields.subrange(0, k));
        lemma_decode_fields_prefix_err(fields, v, k + 1);
    }
}

/// Replace-or-append write of a named native entry.
fn native_props_set(entries: &mut Vec<(String, NativeValue)>, key: String, val: NativeValue)
    ensures
        native_view_props(final(entries)@) == assoc_set(
            native_view_props(old(entries)@),
            key@,
            native_view(val),
        ),
{
    proof {
        lemma_native_view_props(old(entries)@);
    }
    let ghost pv = native_view_props(entries@);
    let len = entries.len();
    let mut i: usize = 0;
    while i < len && !(entries[i].0 == *(&key))
        invariant
            i <= len,
            len == entries@.len(),
            pv == native_view_props(entries@),
            pv.len() == len,
            forall|k: int|
                0 <= k < len ==> pv[k] == (entries@[k].0@, native_view(entries@[k].1)),
            crate::mapping::assoc_index_from(pv, key@, 0) == crate::mapping::assoc_index_from(
                pv,
                key@,
                i as int,
            ),
        decreases len - i,
    {
        proof {
            assert(pv[i as int].0 != key@);
            assert(crate::mapping::assoc_index_from(pv, key@, i as int)
                == crate::mapping::assoc_index_from(pv, key@, i as int + 1));
        }
        i = i + 1;
    }
    proof {
        assert(crate::mapping::assoc_index_from(pv, key@, i as int) == i);
    }
    if i < len {
        let ghost before = entries@;
        entries[i] = (key, val);
        proof {
            lemma_native_view_props(entries@);
            assert(native_view_props(entries@) =~= native_view_props(before).update(
                i as int,
                (key@, native_view(val)),
            ));
        }
    } else {
        let ghost before = entries@;
        entries.push((key, val));
        proof {
            lemma_native_view_props(entries@);
            assert(native_view_props(entries@) =~= native_view_props(before).push(
                (key@, native_view(val)),
            ));
        }
    }
}

/// Decodes a dynamic value at a described type.
#[verifier::loop_isolation(false)]
#[verifier::rlimit(100)]
pub fn decode(ty: &TypeDesc, input: &DynValue) -> (r: Result<NativeValue, Error>)
    requires
        input.wf(),
    ensures
        match r {
            Ok(x) => decode_spec(ty.deep_view(), input.deep_view()) == Ok::<
                NativeView,
                ErrorSpec,
            >(x.deep_view()) && native_wf(x.deep_view()),
            Err(e) => decode_spec(ty.deep_view(), input.deep_view()) == Err::<
                NativeView,
                ErrorSpec,
            >(e.deep_view()),
        },
    decreases type_view(*ty), 0int,
{
    match ty {
        TypeDesc::Bool => Ok(NativeValue::Bool(truthy(input))),
        TypeDesc::I8 => match try_as_i8(input) {
            Ok(i) => Ok(NativeValue::I8(i)),
            Err(e) => Err(e),
        },
        TypeDesc::I32 => Ok(NativeValue::I32(to_int32(input))),
        TypeDesc::U32 => match try_as_u32(input) {
            Ok(u) => Ok(NativeValue::U32(u)),
            Err(e) => Err(e),
        },
        TypeDesc::I64 => match try_as_i64(input) {
            Ok(i) => Ok(NativeValue::I64(i)),
            Err(e) => Err(e),
        },
        TypeDesc::F64 => match try_as_f64(input) {
            Ok(n) => Ok(NativeValue::F64(n)),
            Err(e) => Err(e),
        },
        TypeDesc::F32 => match try_as_f64(input) {
            Ok(n) => Ok(NativeValue::F32(n)),
            Err(e) => Err(e),
        },
        TypeDesc::Text => Ok(NativeValue::Text(to_text(input))),
        TypeDesc::Optional(t1) => {
            proof {
                assert(decreases_to!(type_view(*ty) => type_view(*ty)->Optional_0));
            }
            match input {
                DynValue::Null => Ok(NativeValue::Optional(None)),
                DynValue::Undefined => Ok(NativeValue::Optional(None)),
                _ => match decode(t1, input) {
                    Ok(x) => Ok(NativeValue::Optional(Some(Box::new(x)))),
                    Err(e) => Err(e),
                },
            }
        },
        TypeDesc::Sequence(t1) => {
            proof {
                assert(decreases_to!(type_view(*ty) => type_view(*ty)->Sequence_0));
            }
            match input {
                DynValue::Array(items) => {
                    let ghost iv = dyn_view_seq(items@);
                    let ghost t1v = type_view(**t1);
                    proof {
                        lemma_dyn_view_seq(items@);
                        assert(dyn_view(*input) == DynView::Array(iv));
                    }
                    let len = items.len();
                    let mut out: Vec<NativeValue> = Vec::new();
                    let mut i: usize = 0;
                    proof {
                        assert(iv.subrange(0, 0) =~= Seq::<DynView>::empty());
                        assert(native_view_seq(out@) =~= Seq::<NativeView>::empty());
                    }
                    while i < len
                        invariant
                            i <= len,
                            decode_seq_spec(t1v, iv.subrange(0, i as int)) == Ok::<
                                _,
                                ErrorSpec,
                            >(native_view_seq(out@)),
                            native_wf_seq(native_view_seq(out@)),
                        decreases len - i,
                    {
                        proof {
                            lemma_dyn_wf_seq_index(iv, i as int);
                            assert(iv.subrange(0, (i + 1) as int).drop_last() =~= iv.subrange(
                                0,
                                i as int,
                            ));
                            assert(iv.subrange(0, (i + 1) as int).last() == iv[i as int]);
                        }
                        match decode(t1, &items[i]) {
                            Ok(x) => {
                                let ghost xv = native_view(x);
                                let ghost out_pre = out@;
                                out.push(x);
                                proof {
                                    assert(out@.drop_last() =~= out_pre);
                                    assert(native_view_seq(out@) == native_view_seq(
                                        out_pre,
                                    ).push(xv));
                                    assert(native_view_seq(out@).drop_last()
                                        == native_view_seq(out_pre));
                                    assert(native_view_seq(out@).last() == xv);
                                }
                            },
                            Err(e) => {
                                proof {
                                    lemma_decode_seq_prefix_err(t1v, iv, i as int + 1);
                                }
                                return Err(e);
                            },
                        }
                        i = i + 1;
                    }
                    proof {
                        assert(iv.subrange(0, len as int) =~= iv);
                    }
                    Ok(NativeValue::Sequence(out))
                },
                _ => Err(Error::ExpectedArray),
            }
        },
        TypeDesc::MappingOf(t1) => {
            proof {
                assert(decreases_to!(type_view(*ty) => type_view(*ty)->MappingOf_0));
            }
            match input {
                DynValue::Object(props) => {
                    let ghost pv = dyn_view_props(props@);
                    let ghost t1v = type_view(**t1);
                    proof {
                        lemma_dyn_view_props(props@);
                        assert(dyn_view(*input) == DynView::Object(pv));
                    }
                    let len = props.len();
                    let mut out: Vec<(String, NativeValue)> = Vec::new();
                    let mut i: usize = 0;
                    proof {
                        assert(pv.subrange(0, 0) =~= Seq::<(Seq<char>, DynView)>::empty());
                        assert(native_view_props(out@) =~= Seq::<
                            (Seq<char>, NativeView),
                        >::empty());
                    }
                    while i < len
                        invariant
                            i <= len,
                            decode_props_spec(t1v, pv.subrange(0, i as int)) == Ok::<
                                _,
                                ErrorSpec,
                            >(native_view_props(out@)),
                            native_wf_props(native_view_props(out@)),
                        decreases len - i,
                    {
                        proof {
                            lemma_dyn_wf_props_index(pv, i as int);
                            assert(pv.subrange(0, (i + 1) as int).drop_last() =~= pv.subrange(
                                0,
                                i as int,
                            ));
                            assert(pv.subrange(0, (i + 1) as int).last() == pv[i as int]);
                        }
                        match decode(t1, &props[i].1) {
                            Ok(x) => {
                                let key = props[i].0.clone();
                                let ghost xv = native_view(x);
                                let ghost out_pre = native_view_props(out@);
                                native_props_set(&mut out, key, x);
                                proof {
                                    lemma_native_wf_props_equiv(out_pre);
                                    lemma_native_wf_props_equiv(native_view_props(out@));
                                    lemma_assoc_index_bounds(out_pre, pv[i as int].0, 0);
                                }
                            },
                            Err(e) => {
                                proof {
                                    lemma_decode_props_prefix_err(t1v, pv, i as int + 1);
                                }
                                return Err(e);
                            },
                        }
                        i = i + 1;
                    }
                    proof {
                        assert(pv.subrange(0, len as int) =~= pv);
                    }
                    Ok(NativeValue::MappingOf(out))
                },
                DynValue::Assoc(pairs) => {
                    let ghost pv = dyn_view_pairs(pairs@);
                    let ghost t1v = type_view(**t1);
                    proof {
                        lemma_dyn_view_pairs(pairs@);
                        assert(dyn_view(*input) == DynView::Assoc(pv));
                    }
                    let len = pairs.len();
                    let mut out: Vec<(String, NativeValue)> = Vec::new();
                    let mut i: usize = 0;
                    proof {
                        assert(pv.subrange(0, 0) =~= Seq::<(DynView, DynView)>::empty());
                        assert(native_view_props(out@) =~= Seq::<
                            (Seq<char>, NativeView),
                        >::empty());
                    }
                    while i < len
                        invariant
                            i <= len,
                            decode_pairs_spec(t1v, pv.subrange(0, i as int)) == Ok::<
                                _,
                                ErrorSpec,
                            >(native_view_props(out@)),
                            native_wf_props(native_view_props(out@)),
                        decreases len - i,
                    {
                        proof {
                            lemma_dyn_wf_pairs_index(pv, i as int);
                            assert(pv.subrange(0, (i + 1) as int).drop_last() =~= pv.subrange(
                                0,
                                i as int,
                            ));
                            assert(pv.subrange(0, (i + 1) as int).last() == pv[i as int]);
                        }
                        match decode(t1, &pairs[i].1) {
                            Ok(x) => {
                                let key = to_text(&pairs[i].0);
                                let ghost xv = native_view(x);
                                let ghost out_pre = native_view_props(out@);
                                native_props_set(&mut out, key, x);
                                proof {
                                    lemma_native_wf_props_equiv(out_pre);
                                    lemma_native_wf_props_equiv(native_view_props(out@));
                                    lemma_assoc_index_bounds(
                                        out_pre,
                                        spec_to_text(pv[i as int].0),
                                        0,
                                    );
                                }
                            },
                            Err(e) => {
                                proof {
                                    lemma_decode_pairs_prefix_err(t1v, pv, i as int + 1);
                                }
                                return Err(e);
                            },
                        }
                        i = i + 1;
                    }
                    proof {
                        assert(pv.subrange(0, len as int) =~= pv);
                    }
                    Ok(NativeValue::MappingOf(out))
                },
                _ => Err(Error::ExpectedMap),
            }
        },
        TypeDesc::Tree => match dynamic_to_tree(input) {
            Ok(t) => Ok(NativeValue::Tree(t)),
            Err(e) => Err(e),
        },
        TypeDesc::Record(fields) => {
            proof {
                assert(decreases_to!(type_view(*ty) => type_view(*ty)->Record_0));
            }
            match try_from_value(fields, input) {
                Ok(entries) => Ok(NativeValue::Record(entries)),
                Err(e) => Err(e),
            }
        },
    }
}

/// Decodes one field, through the plain or the optional accessor.
#[verifier::loop_isolation(false)]
fn decode_field(name: &String, ty: &TypeDesc, input: &DynValue) -> (r: Result<NativeValue, Error>)
    requires
        input.wf(),
    ensures
        match r {
            Ok(x) => decode_field_spec(name@, ty.deep_view(), input.deep_view()) == Ok::<
                NativeView,
                ErrorSpec,
            >(x.deep_view()) && native_wf(x.deep_view()),
            Err(e) => decode_field_spec(name@, ty.deep_view(), input.deep_view()) == Err::<
                NativeView,
                ErrorSpec,
            >(e.deep_view()),
        },
    decreases type_view(*ty), 1int,
{
    match ty {
        TypeDesc::Optional(inner) => {
            proof {
                assert(decreases_to!(type_view(*ty) => type_view(*ty)->Optional_0));
            }
            match input {
                DynValue::Object(props) => {
                    proof {
                        lemma_dyn_view_props(props@);
                    }
                    match object_get(props, name) {
                        Some(fv) => {
                            proof {
                                let pv = dyn_view_props(props@);
                                let idx = obj_index_from(pv, name@, 0);
                                lemma_obj_index_le(pv, name@, 0);
                                lemma_dyn_wf_props_index(pv, idx);
                            }
                            match fv {
                                DynValue::Null => Ok(NativeValue::Optional(None)),
                                DynValue::Undefined => Ok(NativeValue::Optional(None)),
                                _ => match decode(inner, fv) {
                                    Ok(x) => Ok(NativeValue::Optional(Some(Box::new(x)))),
                                    Err(e) => Err(e),
                                },
                            }
                        },
                        None => Ok(NativeValue::Optional(None)),
                    }
                },
                DynValue::Array(_) => Ok(NativeValue::Optional(None)),
                DynValue::Assoc(_) => Ok(NativeValue::Optional(None)),
                _ => Err(Error::ExpectedObject),
            }
        },
        _ => {
            match input {
                DynValue::Object(props) => {
                    proof {
                        lemma_dyn_view_props(props@);
                    }
                    match object_get(props, name) {
                        Some(fv) => {
                            proof {
                                let pv = dyn_view_props(props@);
                                let idx = obj_index_from(pv, name@, 0);
                                lemma_obj_index_le(pv, name@, 0);
                                lemma_dyn_wf_props_index(pv, idx);
                            }
                            decode(ty, fv)
                        },
                        None => Err(Error::FieldNotFound(name.clone())),
                    }
                },
                DynValue::Array(_) => Err(Error::FieldNotFound(name.clone())),
                DynValue::Assoc(_) => Err(Error::FieldNotFound(name.clone())),
                _ => Err(Error::ExpectedObject),
            }
        },
    }
}

proof fn lemma_obj_index_le(props: Seq<(Seq<char>, DynView)>, key: Seq<char>, i: int)
    requires
        0 <= i <= props.len(),
    ensures
        i <= obj_index_from(props, key, i) <= props.len(),
    decreases props.len() - i,
{
    if i < props.len() && props[i].0 != key {
        lemma_obj_index_le(props, key, i + 1);
    }
}

/// Decodes a record described by `fields` from a dynamic value: one field
/// after the other, in declaration order, all-or-nothing.
#[verifier::loop_isolation(false)]
pub fn try_from_value(fields: &Vec<Field>, input: &DynValue) -> (r: Result<
    Vec<(String, NativeValue)>,
    Error,
>)
    requires
        input.wf(),
    ensures
        match r {
            Ok(entries) => decode_fields_spec(fields_view(fields@), input.deep_view()) == Ok::<
                _,
                ErrorSpec,
            >(native_view_props(entries@)) && native_wf_props(native_view_props(entries@)),
            Err(e) => decode_fields_spec(fields_view(fields@), input.deep_view()) == Err::<
                Seq<(Seq<char>, NativeView)>,
                ErrorSpec,
            >(e.deep_view()),
        },
    decreases fields_view(fields@), 2int,
{
    let ghost fv = fields_view(fields@);
    proof {
        lemma_fields_view(fields@);
    }
    let len = fields.len();
    let mut out: Vec<(String, NativeValue)> = Vec::new();
    let mut i: usize = 0;
    proof {
        assert(fv.subrange(0, 0) =~= Seq::<(Seq<char>, TypeView)>::empty());
        assert(native_view_props(out@) =~= Seq::<(Seq<char>, NativeView)>::empty());
    }
    while i < len
        invariant
            i <= len,
            decode_fields_spec(fv.subrange(0, i as int), input.deep_view()) == Ok::<
                _,
                ErrorSpec,
            >(native_view_props(out@)),
            native_wf_props(native_view_props(out@)),
        decreases len - i,
    {
        proof {
            assert(fv.subrange(0, (i + 1) as int).drop_last() =~= fv.subrange(0, i as int));
            assert(fv.subrange(0, (i + 1) as int).last() == fv[i as int]);
            assert(decreases_to!(fv => fv[i as int]));
            assert(decreases_to!(fv[i as int] => fv[i as int].1));
        }
        match decode_field(&fields[i].name, &fields[i].ty, input) {
            Ok(x) => {
                let key = fields[i].name.clone();
                let ghost xv = native_view(x);
                let ghost out_pre = out@;
                out.push((key, x));
                proof {
                    assert(out@.drop_last() =~= out_pre);
                    assert(native_view_props(out@) == native_view_props(out_pre).push(
                        (fv[i as int].0, xv),
                    ));
                    assert(native_view_props(out@).drop_last() == native_view_props(out_pre));
                    assert(native_view_props(out@).last() == (fv[i as int].0, xv));
                }
            },
            Err(e) => {
                proof {
                    lemma_decode_fields_prefix_err(fv, input.deep_view(), i as int + 1);
                }
                return Err(e);
            },
        }
        i = i + 1;
    }
    proof {
        assert(fv.subrange(0, len as int) =~= fv);
    }
    Ok(out)
}

// ---------------------------------------------------------------------------
// Encoding, total over native values.

/// The dynamic value a native value encodes to; total. A record encodes
/// as a fresh object with one named property per declared field, written
/// in declaration order; a mapping encodes as an associative map with
/// dynamic text keys.
pub open spec fn encode_spec(x: NativeView) -> DynView
    decreases x, 0int,
{
    match x {
        NativeView::Bool(b) => DynView::Bool(b),
        NativeView::I8(i) => DynView::Int32(i as i32),
        NativeView::I32(i) => DynView::Int32(i),
        NativeView::U32(u) => DynView::Uint32(u),
        NativeView::I64(i) => DynView::BigInt(i),
        NativeView::F64(n) => DynView::Number(n),
        NativeView::F32(n) => DynView::Number(n),
        NativeView::Text(s) => DynView::Text(s),
        NativeView::Optional(o) => match o {
            None => DynView::Null,
            Some(b) => encode_spec(*b),
        },
        NativeView::Sequence(items) => DynView::Array(encode_seq_spec(items)),
        NativeView::MappingOf(entries) => DynView::Assoc(encode_pairs_spec(entries)),
        NativeView::Tree(t) => spec_tree_to_dyn(t),
        NativeView::Record(fields) => DynView::Object(encode_props_spec(fields)),
    }
}

pub open spec fn encode_seq_spec(s: Seq<NativeView>) -> Seq<DynView>
    decreases s, 1int,
{
    if s.len() == 0 {
        Seq::empty()
    } else {
        encode_seq_spec(s.drop_last()).push(encode_spec(s.last()))
    }
}

pub open spec fn encode_pairs_spec(s: Seq<(Seq<char>, NativeView)>) -> Seq<(DynView, DynView)>
    decreases s, 1int,
{
    if s.len() == 0 {
        Seq::empty()
    } else {
        encode_pairs_spec(s.drop_last()).push(
            (DynView::Text(s.last().0), encode_spec(s.last().1)),
        )
    }
}

pub open spec fn encode_props_spec(s: Seq<(Seq<char>, NativeView)>) -> Seq<(Seq<char>, DynView)>
    decreases s, 1int,
{
    if s.len() == 0 {
        Seq::empty()
    } else {
        encode_props_spec(s.drop_last()).push((s.last().0, encode_spec(s.last().1)))
    }
}

/// Encodes a native value as a dynamic value; total.
#[verifier::loop_isolation(false)]
#[verifier::rlimit(100)]
pub fn encode(x: NativeValue) -> (r: DynValue)
    ensures
        r.deep_view() == encode_spec(x.deep_view()),
        native_wf(x.deep_view()) ==> dyn_wf(r.deep_view()),
    decreases native_view(x), 3int,
{
    let ghost x0 = native_view(x);
    match x {
        NativeValue::Bool(b) => DynValue::Bool(b),
        NativeValue::I8(i) => DynValue::Int32(i as i32),
        NativeValue::I32(i) => DynValue::Int32(i),
        NativeValue::U32(u) => DynValue::Uint32(u),
        NativeValue::I64(i) => DynValue::BigInt(i),
        NativeValue::F64(n) => DynValue::Number(n),
        NativeValue::F32(n) => DynValue::Number(n),
        NativeValue::Text(s) => DynValue::Text(s),
        NativeValue::Optional(o) => match o {
            None => DynValue::Null,
            Some(b) => {
                proof {
                    assert(decreases_to!(x0 => x0->Optional_0));
                }
                encode(*b)
            },
        },
        NativeValue::Sequence(items) => {
            let ghost sv = native_view_seq(items@);
            proof {
                lemma_native_view_seq(items@);
                assert(x0 == NativeView::Sequence(sv));
            }
            let mut items = items;
            let mut out: Vec<DynValue> = Vec::new();
            let mut i: usize = 0;
            let len = items.len();
            proof {
                assert(sv.subrange(0, 0) =~= Seq::<NativeView>::empty());
                assert(dyn_view_seq(out@) =~= Seq::<DynView>::empty());
            }
            while i < len
                invariant
                    i <= len,
                    items@.len() == len - i,
                    forall|k: int| 0 <= k < len - i ==> native_view(items@[k]) == sv[i + k],
                    dyn_view_seq(out@) == encode_seq_spec(sv.subrange(0, i as int)),
                    native_wf_seq(sv.subrange(0, i as int)) ==> dyn_wf_seq(dyn_view_seq(out@)),
                decreases len - i,
            {
                let y = items.remove(0);
                let ghost yv = native_view(y);
                proof {
                    assert(decreases_to!(x0 => x0->Sequence_0));
                    assert(decreases_to!(sv => sv[i as int]));
                    assert(yv == sv[i as int]);
                }
                let ev = encode(y);
                let ghost out_pre = out@;
                out.push(ev);
                proof {
                    let pre = sv.subrange(0, i as int);
                    let cur = sv.subrange(0, (i + 1) as int);
                    assert(cur.drop_last() =~= pre);
                    assert(cur.last() == sv[i as int]);
                    assert(out@.drop_last() =~= out_pre);
                    assert(out@.last() == ev);
                    assert(dyn_view_seq(out@) == dyn_view_seq(out_pre).push(dyn_view(ev)));
                    if native_wf_seq(cur) {
                        assert(native_wf_seq(pre));
                        assert(native_wf(yv));
                        assert(dyn_view_seq(out@).drop_last() == dyn_view_seq(out_pre));
                        assert(dyn_wf_seq(dyn_view_seq(out@)));
                    }
                }
                i = i + 1;
            }
            proof {
                assert(sv.subrange(0, len as int) =~= sv);
            }
            DynValue::Array(out)
        },
        NativeValue::MappingOf(entries) => {
            let ghost sv = native_view_props(entries@);
            proof {
                lemma_native_view_props(entries@);
                assert(x0 == NativeView::MappingOf(sv));
            }
            let mut entries = entries;
            let mut out: Vec<(DynValue, DynValue)> = Vec::new();
            let mut i: usize = 0;
            let len = entries.len();
            proof {
                assert(sv.subrange(0, 0) =~= Seq::<(Seq<char>, NativeView)>::empty());
                assert(dyn_view_pairs(out@) =~= Seq::<(DynView, DynView)>::empty());
            }
            while i < len
                invariant
                    i <= len,
                    entries@.len() == len - i,
                    forall|k: int|
                        0 <= k < len - i ==> (entries@[k].0@, native_view(entries@[k].1)) == sv[i
                            + k],
                    dyn_view_pairs(out@) == encode_pairs_spec(sv.subrange(0, i as int)),
                    native_wf_props(sv.subrange(0, i as int)) ==> dyn_wf_pairs(
                        dyn_view_pairs(out@),
                    ),
                decreases len - i,
            {
                let (k, y) = entries.remove(0);
                let ghost yv = native_view(y);
                let ghost kv = k@;
                proof {
                    assert(decreases_to!(x0 => x0->MappingOf_0));
                    assert(decreases_to!(sv => sv[i as int]));
                    assert(decreases_to!(sv[i as int] => sv[i as int].1));
                    assert(yv == sv[i as int].1);
                }
                let ev = encode(y);
                let ghost out_pre = out@;
                out.push((DynValue::Text(k), ev));
                proof {
                    let pre = sv.subrange(0, i as int);
                    let cur = sv.subrange(0, (i + 1) as int);
                    assert(cur.drop_last() =~= pre);
                    assert(cur.last() == sv[i as int]);
                    assert(out@.drop_last() =~= out_pre);
                    assert(dyn_view_pairs(out@) == dyn_view_pairs(out_pre).push(
                        (dyn_view(out@.last().0), dyn_view(out@.last().1)),
                    ));
                    assert(out@.last().1 == ev);
                    assert(dyn_view(out@.last().0) == DynView::Text(kv));
                    if native_wf_props(cur) {
                        assert(native_wf_props(pre));
                        assert(native_wf(yv));
                        assert(dyn_wf(DynView::Text(kv)));
                        assert(dyn_view_pairs(out@).drop_last() == dyn_view_pairs(out_pre));
                        assert(dyn_wf_pairs(dyn_view_pairs(out@)));
                    }
                }
                i = i + 1;
            }
            proof {
                assert(sv.subrange(0, len as int) =~= sv);
            }
            DynValue::Assoc(out)
        },
        NativeValue::Tree(t) => tree_to_dynamic(t),
        NativeValue::Record(fields) => {
            proof {
                assert(decreases_to!(x0 => x0->Record_0));
            }
            into_value(fields)
        },
    }
}

/// Encodes a record's field values as a fresh dynamic object, one named
/// property per field, written in declaration order.
#[verifier::loop_isolation(false)]
pub fn into_value(fields: Vec<(String, NativeValue)>) -> (r: DynValue)
    ensures
        r.deep_view() == DynView::Object(encode_props_spec(native_view_props(fields@))),
        native_wf_props(native_view_props(fields@)) ==> dyn_wf(r.deep_view()),
    decreases native_view_props(fields@), 2int,
{
    let ghost sv = native_view_props(fields@);
    proof {
        lemma_native_view_props(fields@);
    }
    let mut fields = fields;
    let mut out: Vec<(String, DynValue)> = Vec::new();
    let mut i: usize = 0;
    let len = fields.len();
    proof {
        assert(sv.subrange(0, 0) =~= Seq::<(Seq<char>, NativeView)>::empty());
        assert(dyn_view_props(out@) =~= Seq::<(Seq<char>, DynView)>::empty());
    }
    while i < len
        invariant
            i <= len,
            fields@.len() == len - i,
            forall|k: int|
                0 <= k < len - i ==> (fields@[k].0@, native_view(fields@[k].1)) == sv[i + k],
            dyn_view_props(out@) == encode_props_spec(sv.subrange(0, i as int)),
            native_wf_props(sv.subrange(0, i as int)) ==> dyn_wf_props(dyn_view_props(out@)),
        decreases len - i,
    {
        let (k, y) = fields.remove(0);
        let ghost yv = native_view(y);
        let ghost kv = k@;
        proof {
            assert(decreases_to!(sv => sv[i as int]));
            assert(decreases_to!(sv[i as int] => sv[i as int].1));
            assert(yv == sv[i as int].1);
        }
        let ev = encode(y);
        let ghost out_pre = out@;
        out.push((k, ev));
        proof {
            let pre = sv.subrange(0, i as int);
            let cur = sv.subrange(0, (i + 1) as int);
            assert(cur.drop_last() =~= pre);
            assert(cur.last() == sv[i as int]);
            assert(out@.drop_last() =~= out_pre);
            assert(dyn_view_props(out@) == dyn_view_props(out_pre).push((kv, dyn_view(ev))));
            if native_wf_props(cur) {
                assert(native_wf_props(pre));
                assert(native_wf(yv));
                assert(dyn_view_props(out@).drop_last() == dyn_view_props(out_pre));
                assert(dyn_wf_props(dyn_view_props(out@)));
            }
        }
        i = i + 1;
    }
    proof {
        assert(sv.subrange(0, len as int) =~= sv);
    }
    DynValue::Object(out)
}

} // verus!
