use vstd::prelude::*;
use crate::coerce::spec_to_text;
use crate::errors::ErrorSpec;
use crate::from::{
    map_from_pairs_spec, map_from_props_spec, seq_from_spec, TryFromValue,
};
use crate::into::{map_into_pairs_spec, seq_into_spec, IntoValue};
use crate::json::{
    spec_dyn_props_to_tree, spec_dyn_seq_to_tree, spec_dyn_to_tree, spec_tree_props_to_dyn,
    spec_tree_seq_to_dyn, spec_tree_to_dyn, TreeNumView, TreeView,
};
use crate::mapping::{assoc_index_from, assoc_set, assoc_unique, lemma_assoc_index_bounds};
use crate::number::{num_is_int32, num_is_uint32, num_int32_val, num_spec_wf, num_uint32_val, JsNumber, NumSpec};
use crate::record::{
    decode_field_spec, decode_fields_spec, decode_pairs_spec, decode_seq_spec, decode_spec,
    encode_pairs_spec, encode_props_spec, encode_seq_spec, encode_spec,
    lemma_decode_fields_prefix_err, NativeView, TypeView,
};
use crate::value::{obj_index_from, obj_lookup, DynView};

verus! {

// The stated laws of the library, each proved over the same specification
// functions that the executable functions are verified against.

// ---------------------------------------------------------------------------
// Scalar round trips: decoding an encoded scalar gives it back exactly.

/// Encoding a boolean and decoding it through the truthiness coercion is
/// the identity.
pub proof fn lemma_roundtrip_bool(b: bool)
    ensures
        <bool as TryFromValue>::from_value_spec(<bool as IntoValue>::into_value_spec(b)) == Ok::<
            bool,
            ErrorSpec,
        >(b),
{
}

/// Encoding a signed 32-bit integer and decoding it back is the identity.
pub proof fn lemma_roundtrip_i32(i: i32)
    ensures
        <i32 as TryFromValue>::from_value_spec(<i32 as IntoValue>::into_value_spec(i)) == Ok::<
            i32,
            ErrorSpec,
        >(i),
{
}

/// Encoding an unsigned 32-bit integer and decoding it back is the
/// identity.
pub proof fn lemma_roundtrip_u32(u: u32)
    ensures
        <u32 as TryFromValue>::from_value_spec(<u32 as IntoValue>::into_value_spec(u)) == Ok::<
            u32,
            ErrorSpec,
        >(u),
{
}

/// Encoding a signed 64-bit integer and decoding it through the
/// big-integer coercion is the identity.
pub proof fn lemma_roundtrip_i64(i: i64)
    ensures
        <i64 as TryFromValue>::from_value_spec(<i64 as IntoValue>::into_value_spec(i)) == Ok::<
            i64,
            ErrorSpec,
        >(i),
{
    crate::coerce::lemma_wrap_i64_identity(i);
}

/// Encoding text and decoding it through the to-string coercion is the
/// identity.
pub proof fn lemma_roundtrip_text(s: Seq<char>)
    ensures
        <String as TryFromValue>::from_value_spec(<String as IntoValue>::into_value_spec(s))
            == Ok::<Seq<char>, ErrorSpec>(s),
{
}

/// Encoding an engine number and decoding it through the numeric coercion
/// is the identity, for every number, including not-a-number and the
/// infinities.
pub proof fn lemma_roundtrip_number(n: NumSpec)
    ensures
        <JsNumber as TryFromValue>::from_value_spec(
            <JsNumber as IntoValue>::into_value_spec(n),
        ) == Ok::<NumSpec, ErrorSpec>(n),
{
}

// ---------------------------------------------------------------------------
// Optional decoding never fails on null or undefined, and does not invoke
// the wrapped decoder there.

/// Decoding an optional from null yields nothing, for any wrapped type.
pub proof fn lemma_optional_null<T: TryFromValue>()
    ensures
        <Option<T> as TryFromValue>::from_value_spec(DynView::Null) == Ok::<
            Option<T::V>,
            ErrorSpec,
        >(None),
{
}

/// Decoding an optional from undefined yields nothing, for any wrapped
/// type.
pub proof fn lemma_optional_undefined<T: TryFromValue>()
    ensures
        <Option<T> as TryFromValue>::from_value_spec(DynView::Undefined) == Ok::<
            Option<T::V>,
            ErrorSpec,
        >(None),
{
}

// ---------------------------------------------------------------------------
// Record decoding: per-field error attribution, all-or-nothing.

/// When every field before position `j` decodes, and field `j` fails, the
/// whole record fails with exactly field `j`'s error: the first failing
/// field decides the outcome.
pub proof fn lemma_record_first_failure(
    fields: Seq<(Seq<char>, TypeView)>,
    v: DynView,
    j: int,
    e: ErrorSpec,
)
    requires
        0 <= j < fields.len(),
        decode_fields_spec(fields.subrange(0, j), v) is Ok,
        decode_field_spec(fields[j].0, fields[j].1, v) == Err::<NativeView, ErrorSpec>(e),
    ensures
        decode_fields_spec(fields, v) == Err::<Seq<(Seq<char>, NativeView)>, ErrorSpec>(e),
{
    assert(fields.subrange(0, j + 1).drop_last() =~= fields.subrange(0, j));
    assert(fields.subrange(0, j + 1).last() == fields[j]);
    lemma_decode_fields_prefix_err(fields, v, j + 1);
}

/// A mandatory field whose property is absent from the object fails with
/// the field-not-found error naming that field.
pub proof fn lemma_record_missing_mandatory(
    name: Seq<char>,
    t: TypeView,
    props: Seq<(Seq<char>, DynView)>,
)
    requires
        !(t is Optional),
        obj_lookup(props, name) is None,
    ensures
        decode_field_spec(name, t, DynView::Object(props)) == Err::<
            NativeView,
            ErrorSpec,
        >(ErrorSpec::FieldNotFound(name)),
{
}

/// An optional field whose property is absent decodes to nothing, without
/// invoking the wrapped decoder.
pub proof fn lemma_record_missing_optional(
    name: Seq<char>,
    inner: TypeView,
    props: Seq<(Seq<char>, DynView)>,
)
    requires
        obj_lookup(props, name) is None,
    ensures
        decode_field_spec(name, TypeView::Optional(Box::new(inner)), DynView::Object(props))
            == Ok::<NativeView, ErrorSpec>(
            NativeView::Optional(None),
        ),
{
}

/// A mandatory field whose property is present but of the wrong shape
/// fails with the error of that field's declared type on that value.
pub proof fn lemma_record_wrong_shape(
    name: Seq<char>,
    t: TypeView,
    props: Seq<(Seq<char>, DynView)>,
    fv: DynView,
    e: ErrorSpec,
)
    requires
        !(t is Optional),
        obj_lookup(props, name) == Some(fv),
        decode_spec(t, fv) == Err::<NativeView, ErrorSpec>(e),
    ensures
        decode_field_spec(name, t, DynView::Object(props)) == Err::<
            NativeView,
            ErrorSpec,
        >(e),
{
}

/// When every field decodes, the record decodes: construction is
/// all-or-nothing, never partial.
pub proof fn lemma_record_all_fields_ok(fields: Seq<(Seq<char>, TypeView)>, v: DynView)
    requires
        forall|j: int|
            0 <= j < fields.len() ==> decode_field_spec(fields[j].0, fields[j].1, v) is Ok,
    ensures
        decode_fields_spec(fields, v) is Ok,
    decreases fields.len(),
{
    if fields.len() > 0 {
        assert(forall|j: int|
            0 <= j < fields.len() - 1 ==> fields.drop_last()[j] == fields[j]);
        lemma_record_all_fields_ok(fields.drop_last(), v);
        assert(fields.last() == fields[fields.len() - 1]);
    }
}

// ---------------------------------------------------------------------------
// Sequence round trip.

/// When each element round-trips, a whole sequence round-trips: encoding
/// preserves length and order, and decoding restores every element.
pub proof fn lemma_roundtrip_seq<T: TryFromValue + IntoValue>(s: Seq<T::V>)
    requires
        forall|i: int|
            0 <= i < s.len() ==> T::from_value_spec(T::into_value_spec(#[trigger] s[i]))
                == Ok::<T::V, ErrorSpec>(s[i]),
    ensures
        <Vec<T> as TryFromValue>::from_value_spec(<Vec<T> as IntoValue>::into_value_spec(s))
            == Ok::<Seq<T::V>, ErrorSpec>(s),
    decreases s.len(),
{
    lemma_roundtrip_seq_inner::<T>(s);
}

proof fn lemma_roundtrip_seq_inner<T: TryFromValue + IntoValue>(s: Seq<T::V>)
    requires
        forall|i: int|
            0 <= i < s.len() ==> T::from_value_spec(T::into_value_spec(#[trigger] s[i]))
                == Ok::<T::V, ErrorSpec>(s[i]),
    ensures
        seq_from_spec::<T>(seq_into_spec::<T>(s)) == Ok::<Seq<T::V>, ErrorSpec>(s),
    decreases s.len(),
{
    if s.len() == 0 {
        assert(s =~= Seq::<T::V>::empty());
    } else {
        assert(forall|i: int| 0 <= i < s.len() - 1 ==> s.drop_last()[i] == s[i]);
        lemma_roundtrip_seq_inner::<T>(s.drop_last());
        let enc = seq_into_spec::<T>(s);
        assert(enc.drop_last() =~= seq_into_spec::<T>(s.drop_last()));
        assert(enc.last() == T::into_value_spec(s.last()));
        assert(s.last() == s[s.len() - 1]);
        assert(s.drop_last().push(s.last()) =~= s);
    }
}

/// The sequence round trip for signed 32-bit elements.
pub proof fn lemma_roundtrip_seq_i32(s: Seq<i32>)
    ensures
        <Vec<i32> as TryFromValue>::from_value_spec(
            <Vec<i32> as IntoValue>::into_value_spec(s),
        ) == Ok::<Seq<i32>, ErrorSpec>(s),
{
    lemma_roundtrip_seq::<i32>(s);
}

// ---------------------------------------------------------------------------
// Mapping decoding treats an associative map and a plain object alike.

/// The associative-map pairs that carry the same keys and values as an
/// object's properties, keys as dynamic text.
pub open spec fn props_as_pairs(props: Seq<(Seq<char>, DynView)>) -> Seq<(DynView, DynView)>
    decreases props.len(),
{
    if props.len() == 0 {
        Seq::empty()
    } else {
        props_as_pairs(props.drop_last()).push(
            (DynView::Text(props.last().0), props.last().1),
        )
    }
}

/// Decoding a mapping from a plain object and from an associative map
/// holding the same string-keyed entries yield the same result.
pub proof fn lemma_mapping_object_equals_assoc<T: TryFromValue>(
    props: Seq<(Seq<char>, DynView)>,
)
    ensures
        <crate::mapping::StringMap<T> as TryFromValue>::from_value_spec(DynView::Object(props))
            == <crate::mapping::StringMap<T> as TryFromValue>::from_value_spec(
            DynView::Assoc(props_as_pairs(props)),
        ),
    decreases props.len(),
{
    lemma_mapping_props_pairs::<T>(props);
}

proof fn lemma_mapping_props_pairs<T: TryFromValue>(props: Seq<(Seq<char>, DynView)>)
    ensures
        map_from_props_spec::<T>(props) == map_from_pairs_spec::<T>(props_as_pairs(props)),
    decreases props.len(),
{
    if props.len() > 0 {
        lemma_mapping_props_pairs::<T>(props.drop_last());
        let pairs = props_as_pairs(props);
        assert(pairs.drop_last() =~= props_as_pairs(props.drop_last()));
        assert(pairs.last() == (DynView::Text(props.last().0), props.last().1));
        assert(spec_to_text(DynView::Text(props.last().0)) == props.last().0);
    }
}

/// When each entry's value round-trips and the keys are unique, a mapping
/// encoded as an associative map decodes back to exactly its entries.
pub proof fn lemma_roundtrip_mapping<T: TryFromValue + IntoValue>(m: Seq<(Seq<char>, T::V)>)
    requires
        assoc_unique(m),
        forall|i: int|
            0 <= i < m.len() ==> T::from_value_spec(T::into_value_spec(#[trigger] m[i].1))
                == Ok::<T::V, ErrorSpec>(m[i].1),
    ensures
        map_from_pairs_spec::<T>(map_into_pairs_spec::<T>(m)) == Ok::<
            Seq<(Seq<char>, T::V)>,
            ErrorSpec,
        >(m),
    decreases m.len(),
{
    if m.len() == 0 {
        assert(m =~= Seq::<(Seq<char>, T::V)>::empty());
    }
    if m.len() > 0 {
        assert(forall|i: int| 0 <= i < m.len() - 1 ==> m.drop_last()[i] == m[i]);
        assert(assoc_unique(m.drop_last()));
        lemma_roundtrip_mapping::<T>(m.drop_last());
        let enc = map_into_pairs_spec::<T>(m);
        assert(enc.drop_last() =~= map_into_pairs_spec::<T>(m.drop_last()));
        assert(enc.last() == (
            DynView::Text(m.last().0),
            T::into_value_spec(m.last().1),
        ));
        assert(m.last() == m[m.len() - 1]);
        assert(spec_to_text(DynView::Text(m.last().0)) == m.last().0);
        let pre = m.drop_last();
        let key = m.last().0;
        lemma_assoc_index_bounds(pre, key, 0);
        let idx = assoc_index_from(pre, key, 0);
        if idx < pre.len() {
            assert(pre[idx].0 == key);
            assert(m[idx].0 == m[m.len() - 1].0);
            assert(false);
        }
        assert(assoc_set(pre, key, m.last().1) =~= pre.push((key, m.last().1)));
        assert(pre.push((key, m.last().1)) =~= m);
    }
}

// ---------------------------------------------------------------------------
// Tree round trip: converting a tree to a dynamic value and back restores
// it, up to the documented collapses: an unsigned integer beyond the
// signed 64-bit range falls back to the largest signed 64-bit integer, and
// a decimal the engine reports as a 32-bit integer reads back as an
// integer.

pub open spec fn normalize_tree_num(n: TreeNumView) -> TreeNumView {
    match n {
        TreeNumView::Int(i) => TreeNumView::Int(i),
        TreeNumView::Big(u) => if u <= 0x7FFF_FFFF_FFFF_FFFF {
            TreeNumView::Int(u as i64)
        } else {
            TreeNumView::Int(i64::MAX)
        },
        TreeNumView::Dec(d) => {
            let n1 = NumSpec::Fin(d);
            if num_is_int32(n1) {
                TreeNumView::Int(num_int32_val(n1) as i64)
            } else if num_is_uint32(n1) {
                TreeNumView::Int(num_uint32_val(n1) as i64)
            } else {
                TreeNumView::Dec(d)
            }
        },
    }
}

/// What one round trip through the dynamic value model leaves of a tree.
pub open spec fn normalize_tree(t: TreeView) -> TreeView
    decreases t, 0int,
{
    match t {
        TreeView::Null => TreeView::Null,
        TreeView::Bool(b) => TreeView::Bool(b),
        TreeView::Number(n) => TreeView::Number(normalize_tree_num(n)),
        TreeView::Text(s) => TreeView::Text(s),
        TreeView::Array(items) => TreeView::Array(normalize_tree_seq(items)),
        TreeView::Object(props) => TreeView::Object(normalize_tree_props(props)),
    }
}

pub open spec fn normalize_tree_seq(s: Seq<TreeView>) -> Seq<TreeView>
    decreases s, 1int,
{
    if s.len() == 0 {
        Seq::empty()
    } else {
        normalize_tree_seq(s.drop_last()).push(normalize_tree(s.last()))
    }
}

pub open spec fn normalize_tree_props(s: Seq<(Seq<char>, TreeView)>) -> Seq<
    (Seq<char>, TreeView),
>
    decreases s, 1int,
{
    if s.len() == 0 {
        Seq::empty()
    } else {
        assoc_set(
            normalize_tree_props(s.drop_last()),
            s.last().0,
            normalize_tree(s.last().1),
        )
    }
}

/// Every round trip equals the normalization: the collapses above are all
/// that a round trip does to a tree.
pub proof fn lemma_tree_roundtrip(t: TreeView)
    ensures
        spec_dyn_to_tree(spec_tree_to_dyn(t)) == Ok::<TreeView, ErrorSpec>(normalize_tree(t)),
    decreases t, 0int,
{
    match t {
        TreeView::Number(n) => {
            match n {
                TreeNumView::Int(i) => {},
                TreeNumView::Big(u) => {},
                TreeNumView::Dec(d) => {},
            }
        },
        TreeView::Array(items) => {
            lemma_tree_roundtrip_seq(items);
        },
        TreeView::Object(props) => {
            lemma_tree_roundtrip_props(props);
        },
        _ => {},
    }
}

proof fn lemma_tree_roundtrip_seq(s: Seq<TreeView>)
    ensures
        spec_dyn_seq_to_tree(spec_tree_seq_to_dyn(s)) == Ok::<Seq<TreeView>, ErrorSpec>(
            normalize_tree_seq(s),
        ),
    decreases s, 1int,
{
    if s.len() > 0 {
        lemma_tree_roundtrip_seq(s.drop_last());
        lemma_tree_roundtrip(s.last());
        let enc = spec_tree_seq_to_dyn(s);
        assert(enc.drop_last() =~= spec_tree_seq_to_dyn(s.drop_last()));
        assert(enc.last() == spec_tree_to_dyn(s.last()));
    }
}

proof fn lemma_tree_roundtrip_props(s: Seq<(Seq<char>, TreeView)>)
    ensures
        spec_dyn_props_to_tree(spec_tree_props_to_dyn(s)) == Ok::<
            Seq<(Seq<char>, TreeView)>,
            ErrorSpec,
        >(normalize_tree_props(s)),
    decreases s, 1int,
{
    if s.len() > 0 {
        lemma_tree_roundtrip_props(s.drop_last());
        lemma_tree_roundtrip(s.last().1);
        let enc = spec_tree_props_to_dyn(s);
        assert(enc.drop_last() =~= spec_tree_props_to_dyn(s.drop_last()));
        assert(enc.last() == (s.last().0, spec_tree_to_dyn(s.last().1)));
    }
}

/// Trees on which the round trip is exactly the identity: no unsigned
/// integer beyond the signed 64-bit range, no decimal that the engine
/// reports as a 32-bit integer, and no object with a repeated key.
pub open spec fn tree_canonical(t: TreeView) -> bool
    decreases t, 0int,
{
    match t {
        TreeView::Number(n) => match n {
            TreeNumView::Int(_) => true,
            TreeNumView::Big(_) => false,
            TreeNumView::Dec(d) => !num_is_int32(NumSpec::Fin(d))
                && !num_is_uint32(NumSpec::Fin(d)),
        },
        TreeView::Array(items) => tree_canonical_seq(items),
        TreeView::Object(props) => assoc_unique(props) && tree_canonical_props(props),
        _ => true,
    }
}

pub open spec fn tree_canonical_seq(s: Seq<TreeView>) -> bool
    decreases s, 1int,
{
    if s.len() == 0 {
        true
    } else {
        tree_canonical_seq(s.drop_last()) && tree_canonical(s.last())
    }
}

pub open spec fn tree_canonical_props(s: Seq<(Seq<char>, TreeView)>) -> bool
    decreases s, 1int,
{
    if s.len() == 0 {
        true
    } else {
        tree_canonical_props(s.drop_last()) && tree_canonical(s.last().1)
    }
}

/// On canonical trees, normalization is the identity.
pub proof fn lemma_normalize_canonical(t: TreeView)
    requires
        tree_canonical(t),
    ensures
        normalize_tree(t) == t,
    decreases t, 0int,
{
    match t {
        TreeView::Array(items) => {
            lemma_normalize_canonical_seq(items);
        },
        TreeView::Object(props) => {
            lemma_normalize_canonical_props(props);
        },
        _ => {},
    }
}

proof fn lemma_normalize_canonical_seq(s: Seq<TreeView>)
    requires
        tree_canonical_seq(s),
    ensures
        normalize_tree_seq(s) == s,
    decreases s, 1int,
{
    if s.len() > 0 {
        lemma_normalize_canonical_seq(s.drop_last());
        lemma_normalize_canonical(s.last());
        assert(normalize_tree_seq(s) =~= s);
    }
}

proof fn lemma_normalize_canonical_props(s: Seq<(Seq<char>, TreeView)>)
    requires
        assoc_unique(s),
        tree_canonical_props(s),
    ensures
        normalize_tree_props(s) == s,
    decreases s, 1int,
{
    if s.len() > 0 {
        assert(forall|i: int| 0 <= i < s.len() - 1 ==> s.drop_last()[i] == s[i]);
        assert(assoc_unique(s.drop_last()));
        lemma_normalize_canonical_props(s.drop_last());
        lemma_normalize_canonical(s.last().1);
        let pre = s.drop_last();
        let key = s.last().0;
        lemma_assoc_index_bounds(pre, key, 0);
        let idx = assoc_index_from(pre, key, 0);
        if idx < pre.len() {
            assert(pre[idx].0 == key);
            assert(s[idx].0 == s[s.len() - 1].0);
            assert(false);
        }
        assert(normalize_tree_props(s) =~= pre.push((key, normalize_tree(s.last().1))));
        assert(pre.push((key, s.last().1)) =~= s);
    }
}

/// The tree round trip proper: on a canonical tree, converting to a
/// dynamic value and back restores the tree exactly.
pub proof fn lemma_tree_roundtrip_canonical(t: TreeView)
    requires
        tree_canonical(t),
    ensures
        spec_dyn_to_tree(spec_tree_to_dyn(t)) == Ok::<TreeView, ErrorSpec>(t),
{
    lemma_tree_roundtrip(t);
    lemma_normalize_canonical(t);
}

// ---------------------------------------------------------------------------
// The described-type round trip: decoding an encoded value at its own
// description restores it, for every value that fits the description.

/// Whether a native value fits a type description in a way the round trip
/// preserves: shapes line up; numbers are canonical; a present optional
/// never encodes to null or undefined (a nested empty optional would
/// collapse); mapping keys and record field names are unique; trees are
/// canonical.
pub open spec fn fits(t: TypeView, x: NativeView) -> bool
    decreases t, 0int,
{
    match t {
        TypeView::Bool => x is Bool,
        TypeView::I8 => x is I8,
        TypeView::I32 => x is I32,
        TypeView::U32 => x is U32,
        TypeView::I64 => x is I64,
        TypeView::F64 => match x {
            NativeView::F64(n) => num_spec_wf(n),
            _ => false,
        },
        TypeView::F32 => match x {
            NativeView::F32(n) => num_spec_wf(n),
            _ => false,
        },
        TypeView::Text => x is Text,
        TypeView::Optional(t1) => match x {
            NativeView::Optional(o) => match o {
                None => true,
                Some(b) => fits(*t1, *b) && encode_spec(*b) != DynView::Null
                    && encode_spec(*b) != DynView::Undefined,
            },
            _ => false,
        },
        TypeView::Sequence(t1) => match x {
            NativeView::Sequence(items) => fits_seq(*t1, items),
            _ => false,
        },
        TypeView::MappingOf(t1) => match x {
            NativeView::MappingOf(entries) => fits_seq_vals(*t1, entries)
                && assoc_unique(entries),
            _ => false,
        },
        TypeView::Tree => match x {
            NativeView::Tree(tv) => tree_canonical(tv),
            _ => false,
        },
        TypeView::Record(fs) => match x {
            NativeView::Record(xs) => fits_record(fs, xs) && assoc_unique(xs),
            _ => false,
        },
    }
}

pub open spec fn fits_seq(t: TypeView, items: Seq<NativeView>) -> bool
    decreases t, items.len() + 1,
{
    if items.len() == 0 {
        true
    } else {
        fits_seq(t, items.drop_last()) && fits(t, items.last())
    }
}

pub open spec fn fits_seq_vals(
    t: TypeView,
    entries: Seq<(Seq<char>, NativeView)>,
) -> bool
    decreases t, entries.len() + 1,
{
    if entries.len() == 0 {
        true
    } else {
        fits_seq_vals(t, entries.drop_last()) && fits(t, entries.last().1)
    }
}

/// Field names and field values line up, and each value fits its field's
/// declared type.
pub open spec fn fits_record(
    fs: Seq<(Seq<char>, TypeView)>,
    xs: Seq<(Seq<char>, NativeView)>,
) -> bool
    decreases fs, 0int,
{
    if fs.len() != xs.len() {
        false
    } else if fs.len() == 0 {
        true
    } else {
        fits_record(fs.drop_last(), xs.drop_last()) && fs.last().0 == xs.last().0 && fits(
            fs.last().1,
            xs.last().1,
        )
    }
}

proof fn lemma_fits_record_index(
    fs: Seq<(Seq<char>, TypeView)>,
    xs: Seq<(Seq<char>, NativeView)>,
)
    requires
        fits_record(fs, xs),
    ensures
        fs.len() == xs.len(),
        forall|j: int| 0 <= j < fs.len() ==> fs[j].0 == xs[j].0,
        forall|j: int| 0 <= j < fs.len() ==> fits(#[trigger] fs[j].1, xs[j].1),
    decreases fs,
{
    if fs.len() > 0 {
        lemma_fits_record_index(fs.drop_last(), xs.drop_last());
        assert(forall|j: int| 0 <= j < fs.len() - 1 ==> fs.drop_last()[j] == fs[j]);
        assert(forall|j: int| 0 <= j < xs.len() - 1 ==> xs.drop_last()[j] == xs[j]);
        assert(fs.last() == fs[fs.len() - 1]);
        assert(xs.last() == xs[xs.len() - 1]);
    }
}

/// Encoding a record's fields keeps names and positions.
proof fn lemma_encode_props_index(s: Seq<(Seq<char>, NativeView)>)
    ensures
        encode_props_spec(s).len() == s.len(),
        forall|j: int|
            0 <= j < s.len() ==> (#[trigger] encode_props_spec(s)[j]) == (
                s[j].0,
                encode_spec(s[j].1),
            ),
    decreases s,
{
    if s.len() > 0 {
        lemma_encode_props_index(s.drop_last());
        assert(forall|j: int| 0 <= j < s.len() - 1 ==> s.drop_last()[j] == s[j]);
        assert(s.last() == s[s.len() - 1]);
    }
}

/// In a property list with unique names, the lookup of a held name finds
/// exactly its position.
proof fn lemma_obj_index_unique(props: Seq<(Seq<char>, DynView)>, j: int, i: int)
    requires
        0 <= i <= j < props.len(),
        forall|k: int| 0 <= k < props.len() && k != j ==> props[k].0 != props[j].0,
    ensures
        obj_index_from(props, props[j].0, i) == j,
    decreases j - i,
{
    if i < j {
        lemma_obj_index_unique(props, j, i + 1);
    }
}

/// Decoding an encoded value at its own description restores it, for
/// every value that fits the description.
pub proof fn lemma_decode_encode(t: TypeView, x: NativeView)
    requires
        fits(t, x),
    ensures
        decode_spec(t, encode_spec(x)) == Ok::<
            NativeView,
            ErrorSpec,
        >(x),
    decreases t, 0int,
{
    match t {
        TypeView::I64 => {
            crate::coerce::lemma_wrap_i64_identity(x->I64_0);
        },
        TypeView::Optional(t1) => {
            match x {
                NativeView::Optional(o) => match o {
                    None => {},
                    Some(b) => {
                        lemma_decode_encode(*t1, *b);
                    },
                },
                _ => {},
            }
        },
        TypeView::Sequence(t1) => {
            match x {
                NativeView::Sequence(items) => {
                    lemma_decode_encode_seq(*t1, items);
                },
                _ => {},
            }
        },
        TypeView::MappingOf(t1) => {
            match x {
                NativeView::MappingOf(entries) => {
                    lemma_decode_encode_pairs(*t1, entries);
                },
                _ => {},
            }
        },
        TypeView::Tree => {
            match x {
                NativeView::Tree(tv) => {
                    lemma_tree_roundtrip_canonical(tv);
                },
                _ => {},
            }
        },
        TypeView::Record(fs) => {
            match x {
                NativeView::Record(xs) => {
                    lemma_fits_record_index(fs, xs);
                    lemma_decode_encode_record(fs, xs, xs.len() as int);
                    assert(xs.subrange(0, xs.len() as int) =~= xs);
                    assert(fs.subrange(0, fs.len() as int) =~= fs);
                },
                _ => {},
            }
        },
        _ => {},
    }
}

proof fn lemma_decode_encode_seq(t: TypeView, items: Seq<NativeView>)
    requires
        fits_seq(t, items),
    ensures
        decode_seq_spec(t, encode_seq_spec(items)) == Ok::<
            Seq<NativeView>,
            ErrorSpec,
        >(items),
    decreases t, items.len() + 1,
{
    if items.len() == 0 {
        assert(encode_seq_spec(items) =~= Seq::<DynView>::empty());
        assert(items =~= Seq::<NativeView>::empty());
    } else {
        lemma_decode_encode_seq(t, items.drop_last());
        lemma_decode_encode(t, items.last());
        let enc = encode_seq_spec(items);
        assert(enc.drop_last() =~= encode_seq_spec(items.drop_last()));
        assert(enc.last() == encode_spec(items.last()));
        assert(items.drop_last().push(items.last()) =~= items);
    }
}

proof fn lemma_decode_encode_pairs(
    t: TypeView,
    entries: Seq<(Seq<char>, NativeView)>,
)
    requires
        fits_seq_vals(t, entries),
        assoc_unique(entries),
    ensures
        decode_pairs_spec(t, encode_pairs_spec(entries)) == Ok::<
            Seq<(Seq<char>, NativeView)>,
            ErrorSpec,
        >(entries),
    decreases t, entries.len() + 1,
{
    if entries.len() == 0 {
        assert(encode_pairs_spec(entries) =~= Seq::<(DynView, DynView)>::empty());
        assert(entries =~= Seq::<(Seq<char>, NativeView)>::empty());
    } else {
        assert(forall|i: int|
            0 <= i < entries.len() - 1 ==> entries.drop_last()[i] == entries[i]);
        assert(assoc_unique(entries.drop_last()));
        lemma_decode_encode_pairs(t, entries.drop_last());
        lemma_decode_encode(t, entries.last().1);
        let enc = encode_pairs_spec(entries);
        assert(enc.drop_last() =~= encode_pairs_spec(entries.drop_last()));
        assert(enc.last() == (
            DynView::Text(entries.last().0),
            encode_spec(entries.last().1),
        ));
        assert(spec_to_text(DynView::Text(entries.last().0)) == entries.last().0);
        let pre = entries.drop_last();
        let key = entries.last().0;
        lemma_assoc_index_bounds(pre, key, 0);
        let idx = assoc_index_from(pre, key, 0);
        if idx < pre.len() {
            assert(pre[idx].0 == key);
            assert(entries[idx].0 == entries[entries.len() - 1].0);
            assert(false);
        }
        assert(assoc_set(pre, key, entries.last().1) =~= pre.push((key, entries.last().1)));
        assert(pre.push((key, entries.last().1)) =~= entries);
    }
}

/// Field-by-field: decoding the first `n` declared fields of an encoded
/// record yields exactly the first `n` field values.
#[verifier::rlimit(100)]
proof fn lemma_decode_encode_record(
    fs: Seq<(Seq<char>, TypeView)>,
    xs: Seq<(Seq<char>, NativeView)>,
    n: int,
)
    requires
        fits_record(fs, xs),
        assoc_unique(xs),
        0 <= n <= fs.len(),
    ensures
        decode_fields_spec(
            fs.subrange(0, n),
            DynView::Object(encode_props_spec(xs)),
        ) == Ok::<Seq<(Seq<char>, NativeView)>, ErrorSpec>(xs.subrange(0, n)),
    decreases fs, n,
{
    lemma_fits_record_index(fs, xs);
    lemma_encode_props_index(xs);
    let props = encode_props_spec(xs);
    if n == 0 {
        assert(fs.subrange(0, 0) =~= Seq::<(Seq<char>, TypeView)>::empty());
        assert(xs.subrange(0, 0) =~= Seq::<(Seq<char>, NativeView)>::empty());
    } else {
        lemma_decode_encode_record(fs, xs, n - 1);
        let j = n - 1;
        assert(fs.subrange(0, n).drop_last() =~= fs.subrange(0, j));
        assert(fs.subrange(0, n).last() == fs[j]);
        // the lookup of field j's name finds exactly its encoded property
        assert forall|k: int| 0 <= k < props.len() && k != j implies props[k].0 != props[j].0 by {
            assert(xs[k].1 == xs[k].1);
            assert(xs[j].1 == xs[j].1);
            assert(props[k].0 == xs[k].0);
            assert(props[j].0 == xs[j].0);
            if k < j {
                assert(xs[k].0 != xs[j].0);
            } else {
                assert(xs[j].0 != xs[k].0);
            }
        }
        lemma_obj_index_unique(props, j, 0);
        assert(obj_lookup(props, fs[j].0) == Some(
            encode_spec(xs[j].1),
        ));
        // the field itself decodes back to its value
        let fv = encode_spec(xs[j].1);
        match fs[j].1 {
            TypeView::Optional(inner) => {
                match xs[j].1 {
                    NativeView::Optional(o) => match o {
                        None => {
                            assert(fv == DynView::Null);
                        },
                        Some(b) => {
                            lemma_decode_encode(*inner, *b);
                        },
                    },
                    _ => {
                        assert(false);
                    },
                }
            },
            _ => {
                lemma_decode_encode(fs[j].1, xs[j].1);
            },
        }
        assert(decode_field_spec(fs[j].0, fs[j].1, DynView::Object(props)) == Ok::<
            NativeView,
            ErrorSpec,
        >(xs[j].1));
        assert(xs.subrange(0, j).push(xs[j]) =~= xs.subrange(0, n));
        assert(fs[j].0 == xs[j].0);
    }
}

} // verus!
