use vstd::prelude::*;
use crate::json::{TreeValue, TreeView};
use crate::mapping::StringMap;
use crate::number::{num_spec_wf, JsNumber};
use crate::value::{
    dyn_view, dyn_view_pairs, dyn_view_props, dyn_view_seq, dyn_wf, dyn_wf_pairs,
    dyn_wf_seq, DynValue, DynView,
};

verus! {

// Encoding: the capability a native type implements to be turned into a
// dynamic value. Every encoder is total.

/// Encodable to a dynamic value.
pub trait IntoValue: DeepView + Sized {
    /// Inputs whose encoding is a well-formed dynamic value.
    spec fn enc_wf(v: Self::V) -> bool;

    /// The dynamic value the encoding produces, for every input.
    spec fn into_value_spec(v: Self::V) -> DynView;

    /// Encodes this value as a dynamic value.
    fn into_value(self) -> (r: DynValue)
        ensures
            r.deep_view() == Self::into_value_spec(self.deep_view()),
            Self::enc_wf(self.deep_view()) ==> dyn_wf(r.deep_view()),
    ;
}

/// Encodable as a plain dynamic object rather than an associative map.
pub trait IntoObject: DeepView + Sized {
    /// The dynamic object the encoding produces, for every input.
    spec fn into_object_spec(v: Self::V) -> DynView;

    /// Encodes this value as a plain dynamic object.
    fn into_object(self) -> (r: DynValue)
        ensures
            r.deep_view() == Self::into_object_spec(self.deep_view()),
    ;
}

impl IntoValue for bool {
    open spec fn enc_wf(v: bool) -> bool {
        true
    }

    open spec fn into_value_spec(v: bool) -> DynView {
        DynView::Bool(v)
    }

    fn into_value(self) -> (r: DynValue) {
        DynValue::Bool(self)
    }
}

impl IntoValue for i32 {
    open spec fn enc_wf(v: i32) -> bool {
        true
    }

    open spec fn into_value_spec(v: i32) -> DynView {
        DynView::Int32(v)
    }

    fn into_value(self) -> (r: DynValue) {
        DynValue::Int32(self)
    }
}

impl IntoValue for u32 {
    open spec fn enc_wf(v: u32) -> bool {
        true
    }

    open spec fn into_value_spec(v: u32) -> DynView {
        DynView::Uint32(v)
    }

    fn into_value(self) -> (r: DynValue) {
        DynValue::Uint32(self)
    }
}

impl IntoValue for i64 {
    open spec fn enc_wf(v: i64) -> bool {
        true
    }

    open spec fn into_value_spec(v: i64) -> DynView {
        DynView::BigInt(v)
    }

    fn into_value(self) -> (r: DynValue) {
        DynValue::BigInt(self)
    }
}

impl IntoValue for JsNumber {
    open spec fn enc_wf(v: <JsNumber as DeepView>::V) -> bool {
        num_spec_wf(v)
    }

    open spec fn into_value_spec(v: <JsNumber as DeepView>::V) -> DynView {
        DynView::Number(v)
    }

    fn into_value(self) -> (r: DynValue) {
        DynValue::Number(self)
    }
}

impl IntoValue for String {
    open spec fn enc_wf(v: Seq<char>) -> bool {
        true
    }

    open spec fn into_value_spec(v: Seq<char>) -> DynView {
        DynView::Text(v)
    }

    fn into_value(self) -> (r: DynValue) {
        DynValue::Text(self)
    }
}

impl IntoValue for TreeValue {
    open spec fn enc_wf(v: TreeView) -> bool {
        crate::json::tree_wf(v)
    }

    /// The tree-value bridge, encode direction; total.
    open spec fn into_value_spec(v: TreeView) -> DynView {
        crate::json::spec_tree_to_dyn(v)
    }

    fn into_value(self) -> (r: DynValue) {
        crate::json::tree_to_dynamic(self)
    }
}

impl<T: IntoValue> IntoValue for Option<T> {
    open spec fn enc_wf(v: Option<T::V>) -> bool {
        match v {
            None => true,
            Some(x) => T::enc_wf(x),
        }
    }

    /// Nothing encodes as null; a present value encodes through the inner
    /// encoder.
    open spec fn into_value_spec(v: Option<T::V>) -> DynView {
        match v {
            None => DynView::Null,
            Some(x) => T::into_value_spec(x),
        }
    }

    fn into_value(self) -> (r: DynValue) {
        match self {
            None => DynValue::Null,
            Some(x) => x.into_value(),
        }
    }
}

/// Element-wise encoding of a native sequence, in index order.
pub open spec fn seq_into_spec<T: IntoValue>(s: Seq<T::V>) -> Seq<DynView>
    decreases s.len(),
{
    if s.len() == 0 {
        Seq::empty()
    } else {
        seq_into_spec::<T>(s.drop_last()).push(T::into_value_spec(s.last()))
    }
}

pub open spec fn seq_enc_wf<T: IntoValue>(s: Seq<T::V>) -> bool
    decreases s.len(),
{
    if s.len() == 0 {
        true
    } else {
        seq_enc_wf::<T>(s.drop_last()) && T::enc_wf(s.last())
    }
}

impl<T: IntoValue> IntoValue for Vec<T> {
    open spec fn enc_wf(v: Seq<T::V>) -> bool {
        seq_enc_wf::<T>(v)
    }

    /// A native sequence encodes as a dynamic array of its elements'
    /// encodings, kept in order.
    open spec fn into_value_spec(v: Seq<T::V>) -> DynView {
        DynView::Array(seq_into_spec::<T>(v))
    }

    fn into_value(self) -> (r: DynValue) {
        let ghost orig = self.deep_view();
        let mut items = self;
        let mut out: Vec<DynValue> = Vec::new();
        proof {
            assert(orig.subrange(0, 0) =~= Seq::<T::V>::empty());
            assert(dyn_view_seq(out@) =~= Seq::<DynView>::empty());
        }
        let mut i: usize = 0;
        let len = items.len();
        while i < len
            invariant
                i <= len,
                items@.len() == len - i,
                orig.len() == len,
                forall|k: int| 0 <= k < len - i ==> items@[k].deep_view() == orig[i + k],
                dyn_view_seq(out@) == seq_into_spec::<T>(orig.subrange(0, i as int)),
                seq_enc_wf::<T>(orig.subrange(0, i as int)) ==> dyn_wf_seq(dyn_view_seq(out@)),
            decreases len - i,
        {
            let x = items.remove(0);
            let ghost xv = x.deep_view();
            let ev = x.into_value();
            let ghost out_pre = out@;
            out.push(ev);
            proof {
                let pre = orig.subrange(0, i as int);
                let cur = orig.subrange(0, (i + 1) as int);
                assert(cur.drop_last() =~= pre);
                assert(cur.last() == orig[i as int]);
                assert(xv == orig[i as int]);
                assert(out@.drop_last() =~= out_pre);
                assert(out@.last() == ev);
                assert(dyn_view_seq(out@) == dyn_view_seq(out_pre).push(dyn_view(ev)));
                if seq_enc_wf::<T>(cur) {
                    assert(seq_enc_wf::<T>(pre));
                    assert(T::enc_wf(xv));
                    assert(dyn_wf(dyn_view(ev)));
                    assert(dyn_view_seq(out@).drop_last() == dyn_view_seq(out_pre));
                    assert(dyn_wf_seq(dyn_view_seq(out@)));
                }
            }
            i = i + 1;
        }
        proof {
            assert(orig.subrange(0, len as int) =~= orig);
        }
        DynValue::Array(out)
    }
}

/// Entry-wise encoding of a mapping's entries as associative-map pairs:
/// each key becomes a dynamic text value.
pub open spec fn map_into_pairs_spec<T: IntoValue>(s: Seq<(Seq<char>, T::V)>) -> Seq<
    (DynView, DynView),
>
    decreases s.len(),
{
    if s.len() == 0 {
        Seq::empty()
    } else {
        map_into_pairs_spec::<T>(s.drop_last()).push(
            (DynView::Text(s.last().0), T::into_value_spec(s.last().1)),
        )
    }
}

/// Entry-wise encoding of a mapping's entries as named properties.
pub open spec fn map_into_props_spec<T: IntoValue>(s: Seq<(Seq<char>, T::V)>) -> Seq<
    (Seq<char>, DynView),
>
    decreases s.len(),
{
    if s.len() == 0 {
        Seq::empty()
    } else {
        map_into_props_spec::<T>(s.drop_last()).push(
            (s.last().0, T::into_value_spec(s.last().1)),
        )
    }
}

pub open spec fn map_enc_wf<T: IntoValue>(s: Seq<(Seq<char>, T::V)>) -> bool
    decreases s.len(),
{
    if s.len() == 0 {
        true
    } else {
        map_enc_wf::<T>(s.drop_last()) && T::enc_wf(s.last().1)
    }
}

impl<T: IntoValue> IntoValue for StringMap<T> {
    open spec fn enc_wf(v: Seq<(Seq<char>, T::V)>) -> bool {
        map_enc_wf::<T>(v)
    }

    /// A mapping encodes as a dynamic associative map, entries in order,
    /// keys as dynamic text.
    open spec fn into_value_spec(v: Seq<(Seq<char>, T::V)>) -> DynView {
        DynView::Assoc(map_into_pairs_spec::<T>(v))
    }

    fn into_value(self) -> (r: DynValue) {
        let ghost orig = self.deep_view();
        let mut entries = self.into_entries();
        proof {
            crate::mapping::lemma_map_entries_view(entries@);
        }
        let mut out: Vec<(DynValue, DynValue)> = Vec::new();
        proof {
            assert(orig.subrange(0, 0) =~= Seq::<(Seq<char>, T::V)>::empty());
            assert(dyn_view_pairs(out@) =~= Seq::<(DynView, DynView)>::empty());
        }
        let mut i: usize = 0;
        let len = entries.len();
        while i < len
            invariant
                i <= len,
                entries@.len() == len - i,
                orig.len() == len,
                forall|k: int|
                    0 <= k < len - i ==> (entries@[k].0@, entries@[k].1.deep_view()) == orig[i
                        + k],
                dyn_view_pairs(out@) == map_into_pairs_spec::<T>(orig.subrange(0, i as int)),
                map_enc_wf::<T>(orig.subrange(0, i as int)) ==> dyn_wf_pairs(
                    dyn_view_pairs(out@),
                ),
            decreases len - i,
        {
            let (k, v) = entries.remove(0);
            let ghost vv = v.deep_view();
            let ghost kv = k@;
            let evv = v.into_value();
            let ghost out_pre = out@;
            out.push((DynValue::Text(k), evv));
            proof {
                let pre = orig.subrange(0, i as int);
                let cur = orig.subrange(0, (i + 1) as int);
                assert(cur.drop_last() =~= pre);
                assert(cur.last() == orig[i as int]);
                assert(vv == orig[i as int].1);
                assert(out@.drop_last() =~= out_pre);
                assert(dyn_view_pairs(out@) == dyn_view_pairs(out_pre).push(
                    (dyn_view(out@.last().0), dyn_view(out@.last().1)),
                ));
                if map_enc_wf::<T>(cur) {
                    assert(map_enc_wf::<T>(pre));
                    assert(T::enc_wf(vv));
                    assert(dyn_wf(dyn_view(evv)));
                    assert(dyn_wf(DynView::Text(kv)));
                    assert(dyn_view_pairs(out@).last() == (DynView::Text(kv), dyn_view(evv)));
                    assert(dyn_view_pairs(out@).drop_last() == dyn_view_pairs(out_pre));
                    assert(dyn_wf_pairs(dyn_view_pairs(out@)));
                }
            }
            i = i + 1;
        }
        proof {
            assert(orig.subrange(0, len as int) =~= orig);
        }
        DynValue::Assoc(out)
    }
}

impl<T: IntoValue> IntoObject for StringMap<T> {
    /// A mapping encodes as a plain dynamic object, one named property per
    /// entry, in order.
    open spec fn into_object_spec(v: Seq<(Seq<char>, T::V)>) -> DynView {
        DynView::Object(map_into_props_spec::<T>(v))
    }

    fn into_object(self) -> (r: DynValue) {
        let ghost orig = self.deep_view();
        let mut entries = self.into_entries();
        let mut out: Vec<(String, DynValue)> = Vec::new();
        proof {
            crate::mapping::lemma_map_entries_view(entries@);
            assert(orig.subrange(0, 0) =~= Seq::<(Seq<char>, T::V)>::empty());
            assert(dyn_view_props(out@) =~= Seq::<(Seq<char>, DynView)>::empty());
        }
        let mut i: usize = 0;
        let len = entries.len();
        while i < len
            invariant
                i <= len,
                entries@.len() == len - i,
                orig.len() == len,
                forall|k: int|
                    0 <= k < len - i ==> (entries@[k].0@, entries@[k].1.deep_view()) == orig[i
                        + k],
                dyn_view_props(out@) == map_into_props_spec::<T>(orig.subrange(0, i as int)),
            decreases len - i,
        {
            let (k, v) = entries.remove(0);
            let evv = v.into_value();
            let ghost out_pre = out@;
            out.push((k, evv));
            proof {
                let pre = orig.subrange(0, i as int);
                let cur = orig.subrange(0, (i + 1) as int);
                assert(cur.drop_last() =~= pre);
                assert(cur.last() == orig[i as int]);
                assert(out@.drop_last() =~= out_pre);
                assert(dyn_view_props(out@) == dyn_view_props(out_pre).push(
                    (out@.last().0@, dyn_view(out@.last().1)),
                ));
            }
            i = i + 1;
        }
        proof {
            assert(orig.subrange(0, len as int) =~= orig);
        }
        DynValue::Object(out)
    }
}

} // verus!
