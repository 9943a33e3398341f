use vstd::prelude::*;
use crate::errors::{Error, ErrorSpec};
use crate::mapping::assoc_set;
use crate::number::{
    dec_spec_wf, num_is_int32, num_is_uint32, num_int32_val, num_uint32_val, int32_checked,
    uint32_checked, Dec, DecSpec, JsNumber, NumSpec,
};
use crate::value::{
    dyn_view, dyn_view_props, dyn_view_seq, dyn_wf, dyn_wf_props, dyn_wf_seq,
    lemma_dyn_view_props, lemma_dyn_view_seq, lemma_dyn_wf_props_index, lemma_dyn_wf_seq_index,
    DynValue, DynView,
};

verus! {

// The tree-value bridge: a generic, engine-independent tree value, and the
// conversions between it and the dynamic value model. Numbers in a tree are
// either exact machine integers or nonzero finite decimals.

/// Spec-level tree number.
pub enum TreeNumView {
    Int(i64),
    Big(u64),
    Dec(DecSpec),
}

/// Spec-level tree value.
pub enum TreeView {
    Null,
    Bool(bool),
    Number(TreeNumView),
    Text(Seq<char>),
    Array(Seq<TreeView>),
    Object(Seq<(Seq<char>, TreeView)>),
}

/// A tree number: a signed integer, an unsigned integer beyond the signed
/// range, or a nonzero finite decimal.
#[derive(Debug, PartialEq)]
pub enum TreeNum {
    Int(i64),
    Big(u64),
    Dec(Dec),
}

/// An engine-independent tree value.
#[derive(Debug, PartialEq)]
pub enum TreeValue {
    Null,
    Bool(bool),
    Number(TreeNum),
    Text(String),
    Array(Vec<TreeValue>),
    Object(Vec<(String, TreeValue)>),
}

pub open spec fn tree_num_view(n: TreeNum) -> TreeNumView {
    match n {
        TreeNum::Int(i) => TreeNumView::Int(i),
        TreeNum::Big(u) => TreeNumView::Big(u),
        TreeNum::Dec(d) => TreeNumView::Dec(d.deep_view()),
    }
}

pub open spec fn tree_view(t: TreeValue) -> TreeView
    decreases t,
{
    match t {
        TreeValue::Null => TreeView::Null,
        TreeValue::Bool(b) => TreeView::Bool(b),
        TreeValue::Number(n) => TreeView::Number(tree_num_view(n)),
        TreeValue::Text(s) => TreeView::Text(s@),
        TreeValue::Array(items) => TreeView::Array(tree_view_seq(items@)),
        TreeValue::Object(props) => TreeView::Object(tree_view_props(props@)),
    }
}

pub open spec fn tree_view_seq(s: Seq<TreeValue>) -> Seq<TreeView>
    decreases s,
{
    if s.len() == 0 {
        Seq::empty()
    } else {
        tree_view_seq(s.drop_last()).push(tree_view(s.last()))
    }
}

pub open spec fn tree_view_props(s: Seq<(String, TreeValue)>) -> Seq<(Seq<char>, TreeView)>
    decreases s,
{
    if s.len() == 0 {
        Seq::empty()
    } else {
        tree_view_props(s.drop_last()).push((s.last().0@, tree_view(s.last().1)))
    }
}

impl DeepView for TreeValue {
    type V = TreeView;

    open spec fn deep_view(&self) -> TreeView {
        tree_view(*self)
    }
}

pub proof fn lemma_tree_view_seq(s: Seq<TreeValue>)
    ensures
        tree_view_seq(s).len() == s.len(),
        forall|i: int| 0 <= i < s.len() ==> tree_view_seq(s)[i] == tree_view(s[i]),
    decreases s,
{
    if s.len() > 0 {
        lemma_tree_view_seq(s.drop_last());
    }
}

pub proof fn lemma_tree_view_props(s: Seq<(String, TreeValue)>)
    ensures
        tree_view_props(s).len() == s.len(),
        forall|i: int|
            0 <= i < s.len() ==> tree_view_props(s)[i] == (s[i].0@, tree_view(s[i].1)),
    decreases s,
{
    if s.len() > 0 {
        lemma_tree_view_props(s.drop_last());
    }
}

/// Every decimal in the tree is canonical.
pub open spec fn tree_wf(t: TreeView) -> bool
    decreases t,
{
    match t {
        TreeView::Number(n) => match n {
            TreeNumView::Dec(d) => dec_spec_wf(d),
            _ => true,
        },
        TreeView::Array(s) => tree_wf_seq(s),
        TreeView::Object(s) => tree_wf_props(s),
        _ => true,
    }
}

pub open spec fn tree_wf_seq(s: Seq<TreeView>) -> bool
    decreases s,
{
    if s.len() == 0 {
        true
    } else {
        tree_wf_seq(s.drop_last()) && tree_wf(s.last())
    }
}

pub open spec fn tree_wf_props(s: Seq<(Seq<char>, TreeView)>) -> bool
    decreases s,
{
    if s.len() == 0 {
        true
    } else {
        tree_wf_props(s.drop_last()) && tree_wf(s.last().1)
    }
}

pub proof fn lemma_tree_wf_seq_index(s: Seq<TreeView>, i: int)
    requires
        tree_wf_seq(s),
        0 <= i < s.len(),
    ensures
        tree_wf(s[i]),
    decreases s,
{
    if i < s.len() - 1 {
        lemma_tree_wf_seq_index(s.drop_last(), i);
    }
}

pub proof fn lemma_tree_wf_props_index(s: Seq<(Seq<char>, TreeView)>, i: int)
    requires
        tree_wf_props(s),
        0 <= i < s.len(),
    ensures
        tree_wf(s[i].1),
    decreases s,
{
    if i < s.len() - 1 {
        lemma_tree_wf_props_index(s.drop_last(), i);
    }
}

// ---------------------------------------------------------------------------
// Tree to dynamic: total.

/// The dynamic value a tree number becomes: integers prefer the engine's
/// exact big-integer representation; an unsigned value beyond the signed
/// 64-bit range falls back, lossily and by design, to the largest signed
/// 64-bit integer.
pub open spec fn spec_tree_num_to_dyn(n: TreeNumView) -> DynView {
    match n {
        TreeNumView::Int(i) => DynView::BigInt(i),
        TreeNumView::Big(u) => if u <= 0x7FFF_FFFF_FFFF_FFFF {
            DynView::BigInt(u as i64)
        } else {
            DynView::BigInt(i64::MAX)
        },
        TreeNumView::Dec(d) => DynView::Number(NumSpec::Fin(d)),
    }
}

/// The dynamic value a tree becomes; total.
pub open spec fn spec_tree_to_dyn(t: TreeView) -> DynView
    decreases t, 0int,
{
    match t {
        TreeView::Null => DynView::Null,
        TreeView::Bool(b) => DynView::Bool(b),
        TreeView::Number(n) => spec_tree_num_to_dyn(n),
        TreeView::Text(s) => DynView::Text(s),
        TreeView::Array(items) => DynView::Array(spec_tree_seq_to_dyn(items)),
        TreeView::Object(props) => DynView::Object(spec_tree_props_to_dyn(props)),
    }
}

pub open spec fn spec_tree_seq_to_dyn(s: Seq<TreeView>) -> Seq<DynView>
    decreases s, 1int,
{
    if s.len() == 0 {
        Seq::empty()
    } else {
        spec_tree_seq_to_dyn(s.drop_last()).push(spec_tree_to_dyn(s.last()))
    }
}

pub open spec fn spec_tree_props_to_dyn(s: Seq<(Seq<char>, TreeView)>) -> Seq<
    (Seq<char>, DynView),
>
    decreases s, 1int,
{
    if s.len() == 0 {
        Seq::empty()
    } else {
        spec_tree_props_to_dyn(s.drop_last()).push(
            (s.last().0, spec_tree_to_dyn(s.last().1)),
        )
    }
}

/// Converts a tree value to a dynamic value; total.
#[verifier::loop_isolation(false)]
pub fn tree_to_dynamic(t: TreeValue) -> (r: DynValue)
    ensures
        r.deep_view() == spec_tree_to_dyn(t.deep_view()),
        tree_wf(t.deep_view()) ==> dyn_wf(r.deep_view()),
    decreases tree_view(t),
{
    let ghost t0 = tree_view(t);
    match t {
        TreeValue::Null => DynValue::Null,
        TreeValue::Bool(b) => DynValue::Bool(b),
        TreeValue::Text(s) => DynValue::Text(s),
        TreeValue::Number(n) => match n {
            TreeNum::Int(i) => DynValue::BigInt(i),
            TreeNum::Big(u) => if u <= 0x7FFF_FFFF_FFFF_FFFF {
                DynValue::BigInt(u as i64)
            } else {
                DynValue::BigInt(i64::MAX)
            },
            TreeNum::Dec(d) => DynValue::Number(JsNumber::Fin(d)),
        },
        TreeValue::Array(items) => {
            let ghost tv = tree_view_seq(items@);
            proof {
                lemma_tree_view_seq(items@);
            }
            let mut items = items;
            let mut out: Vec<DynValue> = Vec::new();
            let mut i: usize = 0;
            let len = items.len();
            proof {
                assert(tv.subrange(0, 0) =~= Seq::<TreeView>::empty());
                assert(dyn_view_seq(out@) =~= Seq::<DynView>::empty());
            }
            while i < len
                invariant
                    i <= len,
                    items@.len() == len - i,
                    tv.len() == len,
                    forall|k: int| 0 <= k < len - i ==> tree_view(items@[k]) == tv[i + k],
                    dyn_view_seq(out@) == spec_tree_seq_to_dyn(tv.subrange(0, i as int)),
                    tree_wf_seq(tv.subrange(0, i as int)) ==> dyn_wf_seq(dyn_view_seq(out@)),
                decreases len - i,
            {
                let x = items.remove(0);
                let ghost xv = tree_view(x);
                proof {
                    assert(t0 == TreeView::Array(tv));
                    assert(decreases_to!(t0 => t0->Array_0));
                    assert(decreases_to!(tv => tv[i as int]));
                    assert(xv == tv[i as int]);
                }
                let ev = tree_to_dynamic(x);
                let ghost out_pre = out@;
                out.push(ev);
                proof {
                    let pre = tv.subrange(0, i as int);
                    let cur = tv.subrange(0, (i + 1) as int);
                    assert(cur.drop_last() =~= pre);
                    assert(cur.last() == tv[i as int]);
                    assert(xv == tv[i as int]);
                    assert(out@.drop_last() =~= out_pre);
                    assert(out@.last() == ev);
                    assert(dyn_view_seq(out@) == dyn_view_seq(out_pre).push(dyn_view(ev)));
                    if tree_wf_seq(cur) {
                        assert(tree_wf_seq(pre));
                        assert(tree_wf(xv));
                        assert(dyn_view_seq(out@).drop_last() == dyn_view_seq(out_pre));
                        assert(dyn_wf_seq(dyn_view_seq(out@)));
                    }
                }
                i = i + 1;
            }
            proof {
                assert(tv.subrange(0, len as int) =~= tv);
            }
            DynValue::Array(out)
        },
        TreeValue::Object(props) => {
            let ghost tv = tree_view_props(props@);
            proof {
                lemma_tree_view_props(props@);
            }
            let mut props = props;
            let mut out: Vec<(String, DynValue)> = Vec::new();
            let mut i: usize = 0;
            let len = props.len();
            proof {
                assert(tv.subrange(0, 0) =~= Seq::<(Seq<char>, TreeView)>::empty());
                assert(dyn_view_props(out@) =~= Seq::<(Seq<char>, DynView)>::empty());
            }
            while i < len
                invariant
                    i <= len,
                    props@.len() == len - i,
                    tv.len() == len,
                    forall|k: int|
                        0 <= k < len - i ==> (props@[k].0@, tree_view(props@[k].1)) == tv[i + k],
                    dyn_view_props(out@) == spec_tree_props_to_dyn(tv.subrange(0, i as int)),
                    tree_wf_props(tv.subrange(0, i as int)) ==> dyn_wf_props(
                        dyn_view_props(out@),
                    ),
                decreases len - i,
            {
                let (k, x) = props.remove(0);
                let ghost xv = tree_view(x);
                let ghost kv = k@;
                proof {
                    assert(t0 == TreeView::Object(tv));
                    assert(decreases_to!(t0 => t0->Object_0));
                    assert(decreases_to!(tv => tv[i as int]));
                    assert(decreases_to!(tv[i as int] => tv[i as int].1));
                    assert(xv == tv[i as int].1);
                }
                let ev = tree_to_dynamic(x);
                let ghost out_pre = out@;
                out.push((k, ev));
                proof {
                    let pre = tv.subrange(0, i as int);
                    let cur = tv.subrange(0, (i + 1) as int);
                    assert(cur.drop_last() =~= pre);
                    assert(cur.last() == tv[i as int]);
                    assert((kv, xv) == tv[i as int]);
                    assert(out@.drop_last() =~= out_pre);
                    assert(dyn_view_props(out@) == dyn_view_props(out_pre).push(
                        (kv, dyn_view(ev)),
                    ));
                    if tree_wf_props(cur) {
                        assert(tree_wf_props(pre));
                        assert(tree_wf(xv));
                        assert(dyn_view_props(out@).drop_last() == dyn_view_props(out_pre));
                        assert(dyn_wf_props(dyn_view_props(out@)));
                    }
                }
                i = i + 1;
            }
            proof {
                assert(tv.subrange(0, len as int) =~= tv);
            }
            DynValue::Object(out)
        },
    }
}

// ---------------------------------------------------------------------------
// Dynamic to tree.

pub proof fn lemma_tree_wf_seq_equiv(s: Seq<TreeView>)
    ensures
        tree_wf_seq(s) <==> (forall|i: int| 0 <= i < s.len() ==> tree_wf(s[i])),
    decreases s,
{
    if s.len() > 0 {
        lemma_tree_wf_seq_equiv(s.drop_last());
        assert(forall|i: int| 0 <= i < s.len() - 1 ==> s.drop_last()[i] == s[i]);
        assert(s.last() == s[s.len() - 1]);
    }
}

pub proof fn lemma_tree_wf_props_equiv(s: Seq<(Seq<char>, TreeView)>)
    ensures
        tree_wf_props(s) <==> (forall|i: int| 0 <= i < s.len() ==> tree_wf(s[i].1)),
    decreases s,
{
    if s.len() > 0 {
        lemma_tree_wf_props_equiv(s.drop_last());
        assert(forall|i: int| 0 <= i < s.len() - 1 ==> s.drop_last()[i] == s[i]);
        assert(s.last() == s[s.len() - 1]);
    }
}

/// The tree value a dynamic number becomes: a 32-bit-reportable value is
/// an integer; zeros of either sign read as integer zero; not-a-number and
/// the infinities, which a tree cannot carry, read as null.
pub open spec fn spec_dyn_num_to_tree(n: NumSpec) -> TreeView {
    match n {
        NumSpec::NaN => TreeView::Null,
        NumSpec::Infinite(_) => TreeView::Null,
        NumSpec::Zero(_) => TreeView::Number(TreeNumView::Int(0)),
        NumSpec::Fin(d) => if num_is_int32(n) {
            TreeView::Number(TreeNumView::Int(num_int32_val(n) as i64))
        } else if num_is_uint32(n) {
            TreeView::Number(TreeNumView::Int(num_uint32_val(n) as i64))
        } else {
            TreeView::Number(TreeNumView::Dec(d))
        },
    }
}

/// The tree value a dynamic value becomes: arrays walk in index order,
/// plain objects walk their own properties with later equal keys
/// overwriting, an associative map has no own properties and reads as an
/// empty object, and undefined is not a supported shape.
pub open spec fn spec_dyn_to_tree(v: DynView) -> Result<TreeView, ErrorSpec>
    decreases v, 0int,
{
    match v {
        DynView::Null => Ok(TreeView::Null),
        DynView::Undefined => Err(ErrorSpec::UnsupportedValueType),
        DynView::Bool(b) => Ok(TreeView::Bool(b)),
        DynView::Int32(i) => Ok(TreeView::Number(TreeNumView::Int(i as i64))),
        DynView::Uint32(u) => Ok(TreeView::Number(TreeNumView::Int(u as i64))),
        DynView::BigInt(b) => Ok(TreeView::Number(TreeNumView::Int(b))),
        DynView::Number(n) => Ok(spec_dyn_num_to_tree(n)),
        DynView::Text(s) => Ok(TreeView::Text(s)),
        DynView::Array(items) => match spec_dyn_seq_to_tree(items) {
            Ok(s) => Ok(TreeView::Array(s)),
            Err(e) => Err(e),
        },
        DynView::Object(props) => match spec_dyn_props_to_tree(props) {
            Ok(s) => Ok(TreeView::Object(s)),
            Err(e) => Err(e),
        },
        DynView::Assoc(_) => Ok(TreeView::Object(Seq::empty())),
    }
}

pub open spec fn spec_dyn_seq_to_tree(items: Seq<DynView>) -> Result<Seq<TreeView>, ErrorSpec>
    decreases items, 1int,
{
    if items.len() == 0 {
        Ok(Seq::empty())
    } else {
        match spec_dyn_seq_to_tree(items.drop_last()) {
            Err(e) => Err(e),
            Ok(pre) => match spec_dyn_to_tree(items.last()) {
                Ok(t) => Ok(pre.push(t)),
                Err(e) => Err(e),
            },
        }
    }
}

pub open spec fn spec_dyn_props_to_tree(props: Seq<(Seq<char>, DynView)>) -> Result<
    Seq<(Seq<char>, TreeView)>,
    ErrorSpec,
>
    decreases props, 1int,
{
    if props.len() == 0 {
        Ok(Seq::empty())
    } else {
        match spec_dyn_props_to_tree(props.drop_last()) {
            Err(e) => Err(e),
            Ok(pre) => match spec_dyn_to_tree(props.last().1) {
                Ok(t) => Ok(assoc_set(pre, props.last().0, t)),
                Err(e) => Err(e),
            },
        }
    }
}

proof fn lemma_dyn_seq_to_tree_prefix_err(items: Seq<DynView>, k: int)
    requires
        0 <= k <= items.len(),
        spec_dyn_seq_to_tree(items.subrange(0, k)) is Err,
    ensures
        spec_dyn_seq_to_tree(items) == spec_dyn_seq_to_tree(items.subrange(0, k)),
    decreases items.len() - k,
{
    if k == items.len() {
        assert(items.subrange(0, k) =~= items);
    } else {
        assert(items.subrange(0, k + 1).drop_last() =~= items.subrange(0, k));
        lemma_dyn_seq_to_tree_prefix_err(items, k + 1);
    }
}

proof fn lemma_dyn_props_to_tree_prefix_err(props: Seq<(Seq<char>, DynView)>, k: int)
    requires
        0 <= k <= props.len(),
        spec_dyn_props_to_tree(props.subrange(0, k)) is Err,
    ensures
        spec_dyn_props_to_tree(props) == spec_dyn_props_to_tree(props.subrange(0, k)),
    decreases props.len() - k,
{
    if k == props.len() {
        assert(props.subrange(0, k) =~= props);
    } else {
        assert(props.subrange(0, k + 1).drop_last() =~= props.subrange(0, k));
        lemma_dyn_props_to_tree_prefix_err(props, k + 1);
    }
}

/// Replace-or-append write of a named tree property.
fn tree_props_set(entries: &mut Vec<(String, TreeValue)>, key: String, val: TreeValue)
    ensures
        tree_view_props(final(entries)@) == assoc_set(
            tree_view_props(old(entries)@),
            key@,
            tree_view(val),
        ),
{
    proof {
        lemma_tree_view_props(old(entries)@);
    }
    let ghost pv = tree_view_props(entries@);
    let len = entries.len();
    let mut i: usize = 0;
    while i < len && !(entries[i].0 == *(&key))
        invariant
            i <= len,
            len == entries@.len(),
            pv == tree_view_props(entries@),
            pv.len() == len,
            forall|k: int|
                0 <= k < len ==> pv[k] == (entries@[k].0@, tree_view(entries@[k].1)),
            crate::mapping::assoc_index_from(pv, key@, 0) == crate::mapping::assoc_index_from(
                pv,
                key@,
                i as int,
            ),
        decreases len - i,
    {
        proof {
            assert(pv[i as int].0 != key@);
            assert(crate::mapping::assoc_index_from(pv, key@, i as int)
                == crate::mapping::assoc_index_from(pv, key@, i as int + 1));
        }
        i = i + 1;
    }
    proof {
        assert(crate::mapping::assoc_index_from(pv, key@, i as int) == i);
    }
    if i < len {
        let ghost before = entries@;
        entries[i] = (key, val);
        proof {
            lemma_tree_view_props(entries@);
            assert(tree_view_props(entries@) =~= tree_view_props(before).update(
                i as int,
                (key@, tree_view(val)),
            ));
        }
    } else {
        let ghost before = entries@;
        entries.push((key, val));
        proof {
            lemma_tree_view_props(entries@);
            assert(tree_view_props(entries@) =~= tree_view_props(before).push(
                (key@, tree_view(val)),
            ));
        }
    }
}

/// Converts a dynamic value to a tree value, by the dispatch above.
#[verifier::loop_isolation(false)]
#[verifier::rlimit(100)]
pub fn dynamic_to_tree(v: &DynValue) -> (r: Result<TreeValue, Error>)
    requires
        v.wf(),
    ensures
        match r {
            Ok(t) => spec_dyn_to_tree(v.deep_view()) == Ok::<TreeView, ErrorSpec>(t.deep_view())
                && tree_wf(t.deep_view()),
            Err(e) => spec_dyn_to_tree(v.deep_view()) == Err::<TreeView, ErrorSpec>(
                e.deep_view(),
            ),
        },
    decreases dyn_view(*v),
{
    match v {
        DynValue::Null => Ok(TreeValue::Null),
        DynValue::Undefined => Err(Error::UnsupportedValueType),
        DynValue::Bool(b) => Ok(TreeValue::Bool(*b)),
        DynValue::Int32(i) => Ok(TreeValue::Number(TreeNum::Int(*i as i64))),
        DynValue::Uint32(u) => Ok(TreeValue::Number(TreeNum::Int(*u as i64))),
        DynValue::BigInt(b) => Ok(TreeValue::Number(TreeNum::Int(*b))),
        DynValue::Number(n) => {
            match n {
                JsNumber::NaN => Ok(TreeValue::Null),
                JsNumber::Infinite(_) => Ok(TreeValue::Null),
                JsNumber::Zero(_) => Ok(TreeValue::Number(TreeNum::Int(0))),
                JsNumber::Fin(d) => {
                    proof {
                        assert(dyn_wf(v.deep_view()));
                    }
                    match int32_checked(n) {
                        Some(i) => Ok(TreeValue::Number(TreeNum::Int(i as i64))),
                        None => match uint32_checked(n) {
                            Some(u) => Ok(TreeValue::Number(TreeNum::Int(u as i64))),
                            None => Ok(TreeValue::Number(TreeNum::Dec(d.dup()))),
                        },
                    }
                },
            }
        },
        DynValue::Text(s) => Ok(TreeValue::Text(s.clone())),
        DynValue::Array(items) => {
            let ghost iv = dyn_view_seq(items@);
            proof {
                lemma_dyn_view_seq(items@);
                assert(dyn_view(*v) == DynView::Array(iv));
            }
            let len = items.len();
            let mut out: Vec<TreeValue> = Vec::new();
            let mut i: usize = 0;
            proof {
                assert(iv.subrange(0, 0) =~= Seq::<DynView>::empty());
                assert(tree_view_seq(out@) =~= Seq::<TreeView>::empty());
            }
            while i < len
                invariant
                    i <= len,
                    tree_view_seq(out@).len() == i,
                    spec_dyn_seq_to_tree(iv.subrange(0, i as int)) == Ok::<_, ErrorSpec>(
                        tree_view_seq(out@),
                    ),
                    tree_wf_seq(tree_view_seq(out@)),
                decreases len - i,
            {
                proof {
                    lemma_dyn_wf_seq_index(iv, i as int);
                    assert(decreases_to!(dyn_view(*v) => dyn_view(*v)->Array_0));
                    assert(decreases_to!(iv => iv[i as int]));
                }
                match dynamic_to_tree(&items[i]) {
                    Ok(t) => {
                        let ghost tv0 = tree_view(t);
                        let ghost out_pre = out@;
                        out.push(t);
                        proof {
                            assert(iv.subrange(0, (i + 1) as int).drop_last() =~= iv.subrange(
                                0,
                                i as int,
                            ));
                            assert(iv.subrange(0, (i + 1) as int).last() == iv[i as int]);
                            assert(out@.drop_last() =~= out_pre);
                            assert(tree_view_seq(out@) == tree_view_seq(out_pre).push(tv0));
                            assert(tree_view_seq(out@).drop_last() == tree_view_seq(out_pre));
                            assert(tree_view_seq(out@).last() == tv0);
                        }
                    },
                    Err(e) => {
                        proof {
                            assert(iv.subrange(0, (i + 1) as int).drop_last() =~= iv.subrange(
                                0,
                                i as int,
                            ));
                            assert(iv.subrange(0, (i + 1) as int).last() == iv[i as int]);
                            lemma_dyn_seq_to_tree_prefix_err(iv, i as int + 1);
                        }
                        return Err(e);
                    },
                }
                i = i + 1;
            }
            proof {
                assert(iv.subrange(0, len as int) =~= iv);
            }
            Ok(TreeValue::Array(out))
        },
        DynValue::Object(props) => {
            let ghost pv = dyn_view_props(props@);
            proof {
                lemma_dyn_view_props(props@);
                assert(dyn_view(*v) == DynView::Object(pv));
            }
            let len = props.len();
            let mut out: Vec<(String, TreeValue)> = Vec::new();
            let mut i: usize = 0;
            proof {
                assert(pv.subrange(0, 0) =~= Seq::<(Seq<char>, DynView)>::empty());
                assert(tree_view_props(out@) =~= Seq::<(Seq<char>, TreeView)>::empty());
            }
            while i < len
                invariant
                    i <= len,
                    spec_dyn_props_to_tree(pv.subrange(0, i as int)) == Ok::<_, ErrorSpec>(
                        tree_view_props(out@),
                    ),
                    tree_wf_props(tree_view_props(out@)),
                decreases len - i,
            {
                proof {
                    lemma_dyn_wf_props_index(pv, i as int);
                    assert(decreases_to!(dyn_view(*v) => dyn_view(*v)->Object_0));
                    assert(decreases_to!(pv => pv[i as int]));
                    assert(decreases_to!(pv[i as int] => pv[i as int].1));
                }
                match dynamic_to_tree(&props[i].1) {
                    Ok(t) => {
                        let key = props[i].0.clone();
                        let ghost out_pre = tree_view_props(out@);
                        let ghost tv0 = tree_view(t);
                        tree_props_set(&mut out, key, t);
                        proof {
                            assert(pv.subrange(0, (i + 1) as int).drop_last() =~= pv.subrange(
                                0,
                                i as int,
                            ));
                            assert(pv.subrange(0, (i + 1) as int).last() == pv[i as int]);
                            lemma_tree_wf_props_equiv(out_pre);
                            lemma_tree_wf_props_equiv(tree_view_props(out@));
                            crate::mapping::lemma_assoc_index_bounds(out_pre, pv[i as int].0, 0);
                        }
                    },
                    Err(e) => {
                        proof {
                            assert(pv.subrange(0, (i + 1) as int).drop_last() =~= pv.subrange(
                                0,
                                i as int,
                            ));
                            assert(pv.subrange(0, (i + 1) as int).last() == pv[i as int]);
                            lemma_dyn_props_to_tree_prefix_err(pv, i as int + 1);
                        }
                        return Err(e);
                    },
                }
                i = i + 1;
            }
            proof {
                assert(pv.subrange(0, len as int) =~= pv);
            }
            Ok(TreeValue::Object(out))
        },
        DynValue::Assoc(_) => {
            let out: Vec<(String, TreeValue)> = Vec::new();
            proof {
                assert(tree_view_props(out@) =~= Seq::<(Seq<char>, TreeView)>::empty());
            }
            Ok(TreeValue::Object(out))
        },
    }
}

} // verus!
