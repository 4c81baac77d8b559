//! The value model: a tree of sequences, string-keyed maps and scalar
//! leaves, together with its mathematical image and the specification of
//! the whole transform (`map_leaves`).

use vstd::prelude::*;

verus! {

/// An atomic scalar leaf. The traversal engine never looks inside a scalar;
/// it only hands scalars to the leaf transform callback.
#[derive(Debug, PartialEq, Eq)]
pub enum Scalar {
    Int(i64),
    Bool(bool),
    Text(String),
    Null,
    /// A host numeric value carried opaquely as its raw 64-bit encoding.
    NumberBits(u64),
}

/// Mathematical image of a `Scalar`.
pub enum ScalarView {
    Int(i64),
    Bool(bool),
    Text(Seq<char>),
    Null,
    NumberBits(u64),
}

impl View for Scalar {
    type V = ScalarView;

    open spec fn view(&self) -> ScalarView {
        match self {
            Scalar::Int(n) => ScalarView::Int(*n),
            Scalar::Bool(b) => ScalarView::Bool(*b),
            Scalar::Text(s) => ScalarView::Text(s@),
            Scalar::Null => ScalarView::Null,
            Scalar::NumberBits(b) => ScalarView::NumberBits(*b),
        }
    }
}

/// A tree value: an indexed sequence, a string-keyed map, or a scalar leaf.
#[derive(Debug, PartialEq, Eq)]
pub enum Value {
    Array(Vec<Value>),
    Object(Vec<(String, Value)>),
    Scalar(Scalar),
}

/// Mathematical image of a `Value`.
pub enum ValueView {
    Array(Seq<ValueView>),
    Object(Seq<(Seq<char>, ValueView)>),
    Scalar(ScalarView),
}

/// Images of a sequence of child values, in order.
pub open spec fn value_views(s: Seq<Value>) -> Seq<ValueView>
    decreases s,
{
    if s.len() == 0 {
        Seq::empty()
    } else {
        seq![value_view(s[0])] + value_views(s.subrange(1, s.len() as int))
    }
}

/// Images of a sequence of map entries, keys kept, in order.
pub open spec fn entry_views(s: Seq<(String, Value)>) -> Seq<(Seq<char>, ValueView)>
    decreases s,
{
    if s.len() == 0 {
        Seq::empty()
    } else {
        seq![(s[0].0@, value_view(s[0].1))] + entry_views(s.subrange(1, s.len() as int))
    }
}

pub open spec fn value_view(v: Value) -> ValueView
    decreases v,
{
    match v {
        Value::Array(children) => ValueView::Array(value_views(children@)),
        Value::Object(entries) => ValueView::Object(entry_views(entries@)),
        Value::Scalar(s) => ValueView::Scalar(s@),
    }
}

pub broadcast proof fn lemma_value_views(s: Seq<Value>)
    ensures
        (#[trigger] value_views(s)).len() == s.len(),
        forall|i: int| 0 <= i < s.len() ==> value_views(s)[i] == value_view(s[i]),
    decreases s,
{
    if s.len() != 0 {
        lemma_value_views(s.subrange(1, s.len() as int));
    }
}

pub broadcast proof fn lemma_entry_views(s: Seq<(String, Value)>)
    ensures
        (#[trigger] entry_views(s)).len() == s.len(),
        forall|i: int|
            0 <= i < s.len() ==> entry_views(s)[i] == (s[i].0@, value_view(s[i].1)),
    decreases s,
{
    if s.len() != 0 {
        lemma_entry_views(s.subrange(1, s.len() as int));
    }
}

impl View for Value {
    type V = ValueView;

    open spec fn view(&self) -> ValueView {
        value_view(*self)
    }
}

/// Number of direct children of a tree (0 for scalars).
pub open spec fn arity(t: ValueView) -> int {
    match t {
        ValueView::Array(cs) => cs.len() as int,
        ValueView::Object(es) => es.len() as int,
        ValueView::Scalar(_) => 0,
    }
}

/// Direct child `i` of a container tree.
pub open spec fn child_at(t: ValueView, i: int) -> ValueView {
    match t {
        ValueView::Array(cs) => cs[i],
        ValueView::Object(es) => es[i].1,
        ValueView::Scalar(_) => t,
    }
}

/// Key of entry `i` of a map tree.
pub open spec fn object_key_at(t: ValueView, i: int) -> Seq<char> {
    match t {
        ValueView::Object(es) => es[i].0,
        _ => Seq::empty(),
    }
}

/// A write-back key: a position under a sequence parent, a string key
/// under a map parent.
pub enum KeyView {
    Index(int),
    Name(Seq<char>),
}

/// The write-back key of child `i` of `t`.
pub open spec fn key_at(t: ValueView, i: int) -> KeyView {
    match t {
        ValueView::Object(es) => KeyView::Name(es[i].0),
        _ => KeyView::Index(i),
    }
}

/// The container with child `i` replaced by `v` (keys untouched).
pub open spec fn with_child_at(t: ValueView, i: int, v: ValueView) -> ValueView {
    match t {
        ValueView::Array(cs) => ValueView::Array(cs.update(i, v)),
        ValueView::Object(es) => ValueView::Object(es.update(i, (es[i].0, v))),
        ValueView::Scalar(_) => t,
    }
}

/// Pairwise distinct keys at the top level of a map (true of any other tree).
pub open spec fn distinct_keys(t: ValueView) -> bool {
    match t {
        ValueView::Object(es) => forall|a: int, b: int|
            #![auto]
            0 <= a < b < es.len() ==> es[a].0 != es[b].0,
        _ => true,
    }
}

/// A tree is well formed when every map level has pairwise distinct keys.
pub open spec fn well_formed(t: ValueView) -> bool
    decreases t,
{
    match t {
        ValueView::Scalar(_) => true,
        ValueView::Array(cs) => forall|i: int|
            #![auto]
            0 <= i < cs.len() ==> well_formed(cs[i]),
        ValueView::Object(es) => {
            &&& forall|i: int, j: int|
                #![auto]
                0 <= i < j < es.len() ==> es[i].0 != es[j].0
            &&& forall|i: int| #![auto] 0 <= i < es.len() ==> well_formed(es[i].1)
        },
    }
}

/// A tree with no scalar leaf anywhere.
pub open spec fn leafless(t: ValueView) -> bool
    decreases t,
{
    match t {
        ValueView::Scalar(_) => false,
        ValueView::Array(cs) => forall|i: int| #![auto] 0 <= i < cs.len() ==> leafless(cs[i]),
        ValueView::Object(es) => forall|i: int|
            #![auto]
            0 <= i < es.len() ==> leafless(es[i].1),
    }
}

/// Whether `f` fails on some scalar leaf of `t`.
pub open spec fn has_failing_leaf(f: spec_fn(ScalarView) -> Option<ScalarView>, t: ValueView) -> bool
    decreases t,
{
    match t {
        ValueView::Scalar(s) => f(s) is None,
        ValueView::Array(cs) => exists|i: int|
            #![auto]
            0 <= i < cs.len() && has_failing_leaf(f, cs[i]),
        ValueView::Object(es) => exists|i: int|
            #![auto]
            0 <= i < es.len() && has_failing_leaf(f, es[i].1),
    }
}

/// The transformed children of a sequence, or None once `f` fails on any
/// leaf below.
pub open spec fn map_children(f: spec_fn(ScalarView) -> Option<ScalarView>, cs: Seq<ValueView>) -> Option<
    Seq<ValueView>,
>
    decreases cs,
{
    if cs.len() == 0 {
        Some(Seq::empty())
    } else {
        match (map_leaves(f, cs[0]), map_children(f, cs.subrange(1, cs.len() as int))) {
            (Some(h), Some(rest)) => Some(seq![h] + rest),
            _ => None,
        }
    }
}

/// The transformed entries of a map: values transformed, keys kept.
pub open spec fn map_entries(
    f: spec_fn(ScalarView) -> Option<ScalarView>,
    es: Seq<(Seq<char>, ValueView)>,
) -> Option<Seq<(Seq<char>, ValueView)>>
    decreases es,
{
    if es.len() == 0 {
        Some(Seq::empty())
    } else {
        match (map_leaves(f, es[0].1), map_entries(f, es.subrange(1, es.len() as int))) {
            (Some(h), Some(rest)) => Some(seq![(es[0].0, h)] + rest),
            _ => None,
        }
    }
}

/// What the whole transform means: apply `f` to every scalar leaf, keep the
/// shape, the sequence order and the map keys; fail (None) as soon as `f`
/// fails on any leaf.
pub open spec fn map_leaves(f: spec_fn(ScalarView) -> Option<ScalarView>, t: ValueView) -> Option<
    ValueView,
>
    decreases t,
{
    match t {
        ValueView::Scalar(s) => match f(s) {
            Some(u) => Some(ValueView::Scalar(u)),
            None => None,
        },
        ValueView::Array(cs) => match map_children(f, cs) {
            Some(us) => Some(ValueView::Array(us)),
            None => None,
        },
        ValueView::Object(es) => match map_entries(f, es) {
            Some(us) => Some(ValueView::Object(us)),
            None => None,
        },
    }
}

/// Size of a tree: one per node, leaves included.
pub open spec fn tree_size(t: ValueView) -> nat
    decreases t, arity(t) + 1,
{
    1 + child_sizes_from(t, 0)
}

/// Sum of the sizes of children `k..arity(t)` of `t`.
pub open spec fn child_sizes_from(t: ValueView, k: int) -> nat
    decreases t, arity(t) - k,
{
    if k < 0 || k >= arity(t) {
        0
    } else {
        tree_size(child_at(t, k)) + child_sizes_from(t, k + 1)
    }
}

} // verus!
