use vstd::prelude::*;
use crate::number::{num_spec_wf, JsNumber, NumSpec};

verus! {

// The dynamic value model: a capability-tagged engine value. A value is
// null, undefined, a boolean, a 32-bit integer reported signed or unsigned,
// an arbitrary-precision integer (held to 64 signed bits, as the engine's
// binding reads it), a number, text, an array, a plain object with named
// properties, or an associative map whose keys are themselves values.

/// Spec-level dynamic value.
pub enum DynView {
    Null,
    Undefined,
    Bool(bool),
    Int32(i32),
    Uint32(u32),
    BigInt(i64),
    Number(NumSpec),
    Text(Seq<char>),
    Array(Seq<DynView>),
    Object(Seq<(Seq<char>, DynView)>),
    Assoc(Seq<(DynView, DynView)>),
}

/// A dynamic engine value.
#[derive(Debug, PartialEq)]
pub enum DynValue {
    Null,
    Undefined,
    Bool(bool),
    Int32(i32),
    Uint32(u32),
    BigInt(i64),
    Number(JsNumber),
    Text(String),
    Array(Vec<DynValue>),
    Object(Vec<(String, DynValue)>),
    Assoc(Vec<(DynValue, DynValue)>),
}

pub open spec fn dyn_view(v: DynValue) -> DynView
    decreases v,
{
    match v {
        DynValue::Null => DynView::Null,
        DynValue::Undefined => DynView::Undefined,
        DynValue::Bool(b) => DynView::Bool(b),
        DynValue::Int32(i) => DynView::Int32(i),
        DynValue::Uint32(u) => DynView::Uint32(u),
        DynValue::BigInt(i) => DynView::BigInt(i),
        DynValue::Number(n) => DynView::Number(n.deep_view()),
        DynValue::Text(s) => DynView::Text(s@),
        DynValue::Array(items) => DynView::Array(dyn_view_seq(items@)),
        DynValue::Object(props) => DynView::Object(dyn_view_props(props@)),
        DynValue::Assoc(pairs) => DynView::Assoc(dyn_view_pairs(pairs@)),
    }
}

pub open spec fn dyn_view_seq(s: Seq<DynValue>) -> Seq<DynView>
    decreases s,
{
    if s.len() == 0 {
        Seq::empty()
    } else {
        dyn_view_seq(s.drop_last()).push(dyn_view(s.last()))
    }
}

pub open spec fn dyn_view_props(s: Seq<(String, DynValue)>) -> Seq<(Seq<char>, DynView)>
    decreases s,
{
    if s.len() == 0 {
        Seq::empty()
    } else {
        dyn_view_props(s.drop_last()).push((s.last().0@, dyn_view(s.last().1)))
    }
}

pub open spec fn dyn_view_pairs(s: Seq<(DynValue, DynValue)>) -> Seq<(DynView, DynView)>
    decreases s,
{
    if s.len() == 0 {
        Seq::empty()
    } else {
        dyn_view_pairs(s.drop_last()).push(
            (dyn_view(s.last().0), dyn_view(s.last().1)),
        )
    }
}

impl DeepView for DynValue {
    type V = DynView;

    open spec fn deep_view(&self) -> DynView {
        dyn_view(*self)
    }
}

pub proof fn lemma_dyn_view_seq(s: Seq<DynValue>)
    ensures
        dyn_view_seq(s).len() == s.len(),
        forall|i: int| 0 <= i < s.len() ==> dyn_view_seq(s)[i] == dyn_view(s[i]),
    decreases s,
{
    if s.len() > 0 {
        lemma_dyn_view_seq(s.drop_last());
    }
}

pub proof fn lemma_dyn_view_props(s: Seq<(String, DynValue)>)
    ensures
        dyn_view_props(s).len() == s.len(),
        forall|i: int|
            0 <= i < s.len() ==> dyn_view_props(s)[i] == (s[i].0@, dyn_view(s[i].1)),
    decreases s,
{
    if s.len() > 0 {
        lemma_dyn_view_props(s.drop_last());
    }
}

pub proof fn lemma_dyn_view_pairs(s: Seq<(DynValue, DynValue)>)
    ensures
        dyn_view_pairs(s).len() == s.len(),
        forall|i: int|
            0 <= i < s.len() ==> dyn_view_pairs(s)[i] == (dyn_view(s[i].0), dyn_view(s[i].1)),
    decreases s,
{
    if s.len() > 0 {
        lemma_dyn_view_pairs(s.drop_last());
    }
}

// ---------------------------------------------------------------------------
// Well-formedness: every number held anywhere inside the value is canonical.

pub open spec fn dyn_wf(v: DynView) -> bool
    decreases v,
{
    match v {
        DynView::Number(n) => num_spec_wf(n),
        DynView::Array(s) => dyn_wf_seq(s),
        DynView::Object(s) => dyn_wf_props(s),
        DynView::Assoc(s) => dyn_wf_pairs(s),
        _ => true,
    }
}

pub open spec fn dyn_wf_seq(s: Seq<DynView>) -> bool
    decreases s,
{
    if s.len() == 0 {
        true
    } else {
        dyn_wf_seq(s.drop_last()) && dyn_wf(s.last())
    }
}

pub open spec fn dyn_wf_props(s: Seq<(Seq<char>, DynView)>) -> bool
    decreases s,
{
    if s.len() == 0 {
        true
    } else {
        dyn_wf_props(s.drop_last()) && dyn_wf(s.last().1)
    }
}

pub open spec fn dyn_wf_pairs(s: Seq<(DynView, DynView)>) -> bool
    decreases s,
{
    if s.len() == 0 {
        true
    } else {
        dyn_wf_pairs(s.drop_last()) && dyn_wf(s.last().0) && dyn_wf(s.last().1)
    }
}

pub proof fn lemma_dyn_wf_seq_index(s: Seq<DynView>, i: int)
    requires
        dyn_wf_seq(s),
        0 <= i < s.len(),
    ensures
        dyn_wf(s[i]),
    decreases s,
{
    if i < s.len() - 1 {
        lemma_dyn_wf_seq_index(s.drop_last(), i);
    }
}

pub proof fn lemma_dyn_wf_props_index(s: Seq<(Seq<char>, DynView)>, i: int)
    requires
        dyn_wf_props(s),
        0 <= i < s.len(),
    ensures
        dyn_wf(s[i].1),
    decreases s,
{
    if i < s.len() - 1 {
        lemma_dyn_wf_props_index(s.drop_last(), i);
    }
}

pub proof fn lemma_dyn_wf_pairs_index(s: Seq<(DynView, DynView)>, i: int)
    requires
        dyn_wf_pairs(s),
        0 <= i < s.len(),
    ensures
        dyn_wf(s[i].0),
        dyn_wf(s[i].1),
    decreases s,
{
    if i < s.len() - 1 {
        lemma_dyn_wf_pairs_index(s.drop_last(), i);
    }
}

impl DynValue {
    pub open spec fn wf(&self) -> bool {
        dyn_wf(self.deep_view())
    }
}

// ---------------------------------------------------------------------------
// Named-property access on plain objects: first matching key.

/// Index of the first property named `key`, or the property count.
pub open spec fn obj_index_from(props: Seq<(Seq<char>, DynView)>, key: Seq<char>, i: int) -> int
    decreases props.len() - i,
{
    if i < 0 || i >= props.len() {
        props.len() as int
    } else if props[i].0 == key {
        i
    } else {
        obj_index_from(props, key, i + 1)
    }
}

/// The value of the property named `key`, if the object has one.
pub open spec fn obj_lookup(props: Seq<(Seq<char>, DynView)>, key: Seq<char>) -> Option<DynView> {
    let idx = obj_index_from(props, key, 0);
    if idx < props.len() {
        Some(props[idx].1)
    } else {
        None
    }
}

/// Writing the property named `key`: replaces the first match, else appends.
pub open spec fn obj_set(
    props: Seq<(Seq<char>, DynView)>,
    key: Seq<char>,
    val: DynView,
) -> Seq<(Seq<char>, DynView)> {
    let idx = obj_index_from(props, key, 0);
    if idx < props.len() {
        props.update(idx, (key, val))
    } else {
        props.push((key, val))
    }
}

/// Index of the first property of `entries` named `key`, or the length.
pub fn object_index(entries: &Vec<(String, DynValue)>, key: &String) -> (r: usize)
    ensures
        r == obj_index_from(dyn_view_props(entries@), key@, 0),
        r <= entries@.len(),
{
    proof {
        lemma_dyn_view_props(entries@);
    }
    let ghost props = dyn_view_props(entries@);
    let len = entries.len();
    let mut i: usize = 0;
    while i < len && !(entries[i].0 == *key)
        invariant
            i <= len,
            len == entries@.len(),
            props == dyn_view_props(entries@),
            props.len() == len,
            forall|k: int| 0 <= k < props.len() ==> props[k] == (entries@[k].0@, dyn_view(
                entries@[k].1,
            )),
            obj_index_from(props, key@, 0) == obj_index_from(props, key@, i as int),
        decreases len - i,
    {
        proof {
            assert(props[i as int].0 != key@);
            assert(obj_index_from(props, key@, i as int) == obj_index_from(
                props,
                key@,
                i as int + 1,
            ));
        }
        i = i + 1;
    }
    proof {
        if i < len {
            assert(props[i as int].0 == key@);
        }
        assert(obj_index_from(props, key@, i as int) == i);
    }
    i
}

/// The value of the property of `entries` named `key`, if there is one.
pub fn object_get<'a>(entries: &'a Vec<(String, DynValue)>, key: &String) -> (r: Option<
    &'a DynValue,
>)
    ensures
        match r {
            Some(v) => obj_lookup(dyn_view_props(entries@), key@) == Some(v.deep_view()),
            None => obj_lookup(dyn_view_props(entries@), key@) is None,
        },
{
    proof {
        lemma_dyn_view_props(entries@);
    }
    let idx = object_index(entries, key);
    if idx < entries.len() {
        Some(&entries[idx].1)
    } else {
        None
    }
}

/// Writes the property named `key` on `entries`.
pub fn object_set(entries: &mut Vec<(String, DynValue)>, key: String, val: DynValue)
    ensures
        dyn_view_props(final(entries)@) == obj_set(
            dyn_view_props(old(entries)@),
            key@,
            dyn_view(val),
        ),
{
    proof {
        lemma_dyn_view_props(old(entries)@);
    }
    let idx = object_index(entries, &key);
    if idx < entries.len() {
        let ghost before = entries@;
        entries[idx] = (key, val);
        proof {
            lemma_dyn_view_props(entries@);
            assert(dyn_view_props(entries@) =~= dyn_view_props(before).update(
                idx as int,
                (key@, dyn_view(val)),
            ));
        }
    } else {
        let ghost before = entries@;
        entries.push((key, val));
        proof {
            lemma_dyn_view_props(entries@);
            assert(dyn_view_props(entries@) =~= dyn_view_props(before).push(
                (key@, dyn_view(val)),
            ));
        }
    }
}

} // verus!
