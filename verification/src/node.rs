//! The unit of work on the traversal stack: a value decomposed into a
//! uniform container (children keyed by position or by string key, or one
//! scalar), plus the bookkeeping the iterative walk needs.

use vstd::prelude::*;

use crate::EngineError;
use crate::value::{
    Scalar, Value, ValueView, arity, child_at, distinct_keys, entry_views, key_at, object_key_at,
    value_view, value_views, with_child_at, KeyView,
};

verus! {

broadcast use crate::value::lemma_value_views, crate::value::lemma_entry_views;

/// Shape of a value: indexed sequence, keyed map, or anything else
/// (scalars, text included: text is never treated as indexable).
#[derive(Clone, Copy, Debug, PartialEq, Eq, Structural)]
pub enum EnumJsTypes {
    TypeArray,
    TypeObject,
    TypeNotIterableOrIsString,
}

/// The key under which a node's value is written back into its parent:
/// a position for sequence parents, a string key for map parents.
#[derive(Debug)]
pub enum EnumKeyTypes {
    TypeInt(usize),
    TypeString(String),
}

/// A node's container: children keyed by position, children keyed by
/// string key, or one scalar.
pub enum EnumStorageTypes {
    TypeChildrenWithKeyInts(Vec<Value>),
    TypeChildrenWithKeyStrings(Vec<(String, Value)>),
    TypeValue(Scalar),
}

pub struct Node {
    pub field_bool_children_in_stack: bool,
    pub field_parent_key: Option<EnumKeyTypes>,
    pub field_type: Option<EnumJsTypes>,
    pub field_usize_layer: usize,
    pub field_value: Option<EnumStorageTypes>,
}

pub open spec fn key_view(k: EnumKeyTypes) -> KeyView {
    match k {
        EnumKeyTypes::TypeInt(i) => KeyView::Index(i as int),
        EnumKeyTypes::TypeString(s) => KeyView::Name(s@),
    }
}

/// The shape a value classifies to.
pub open spec fn classify(t: ValueView) -> EnumJsTypes {
    match t {
        ValueView::Array(_) => EnumJsTypes::TypeArray,
        ValueView::Object(_) => EnumJsTypes::TypeObject,
        ValueView::Scalar(_) => EnumJsTypes::TypeNotIterableOrIsString,
    }
}

/// The tree a node's container currently denotes.
pub open spec fn storage_view(s: EnumStorageTypes) -> ValueView {
    match s {
        EnumStorageTypes::TypeChildrenWithKeyInts(v) => ValueView::Array(value_views(v@)),
        EnumStorageTypes::TypeChildrenWithKeyStrings(v) => ValueView::Object(entry_views(v@)),
        EnumStorageTypes::TypeValue(sc) => ValueView::Scalar(sc@),
    }
}

/// A node is well formed when it has been set up and its declared shape
/// matches its container.
pub open spec fn node_wf(n: Node) -> bool {
    match (n.field_type, n.field_value) {
        (Some(EnumJsTypes::TypeArray), Some(EnumStorageTypes::TypeChildrenWithKeyInts(_))) => true,
        (
            Some(EnumJsTypes::TypeObject),
            Some(EnumStorageTypes::TypeChildrenWithKeyStrings(_)),
        ) => true,
        (Some(EnumJsTypes::TypeNotIterableOrIsString), Some(EnumStorageTypes::TypeValue(_))) => true,
        _ => false,
    }
}

pub open spec fn node_content(n: Node) -> ValueView {
    storage_view(n.field_value->0)
}

pub open spec fn spec_has_children(n: Node) -> bool {
    match n.field_value {
        Some(EnumStorageTypes::TypeChildrenWithKeyInts(_)) => true,
        Some(EnumStorageTypes::TypeChildrenWithKeyStrings(_)) => true,
        _ => false,
    }
}

/// A freshly set-up child node waiting on the stack: its container holds
/// the original subtree `v`, it sits one layer below its parent, and it
/// knows the key it must be written back under.
pub open spec fn pending_node_ok(n: Node, layer: int, k: KeyView, v: ValueView) -> bool {
    &&& node_wf(n)
    &&& n.field_usize_layer == layer
    &&& n.field_parent_key matches Some(pk) && key_view(pk) == k
    &&& node_content(n) == v
    &&& n.field_bool_children_in_stack == (v is Scalar)
}

impl Node {
    pub fn new() -> (n: Node)
        ensures
            !n.field_bool_children_in_stack,
            n.field_parent_key is None,
            n.field_type is None,
            n.field_usize_layer == 0,
            n.field_value is None,
    {
        Node {
            field_bool_children_in_stack: false,
            field_parent_key: None,
            field_type: None,
            field_usize_layer: 0,
            field_value: None,
        }
    }

    /// Classifies a value; text and every other non-container value is
    /// `TypeNotIterableOrIsString`.
    pub fn get_enum_type_iterable_or_not_iterable(arg_value: &Value) -> (t: EnumJsTypes)
        ensures
            t == classify(arg_value@),
    {
        match arg_value {
            Value::Array(_) => EnumJsTypes::TypeArray,
            Value::Object(_) => EnumJsTypes::TypeObject,
            Value::Scalar(_) => EnumJsTypes::TypeNotIterableOrIsString,
        }
    }

    /// Decomposes `arg_value` into this node. Scalar nodes are born already
    /// expanded: they have no children to push.
    pub fn setup(
        &mut self,
        arg_value: Value,
        arg_usize_layer: usize,
        arg_parent_key: Option<EnumKeyTypes>,
    )
        ensures
            node_wf(*final(self)),
            final(self).field_usize_layer == arg_usize_layer,
            final(self).field_parent_key == arg_parent_key,
            final(self).field_type == Some(classify(arg_value@)),
            node_content(*final(self)) == arg_value@,
            final(self).field_bool_children_in_stack == (arg_value@ is Scalar),
    {
        self.field_parent_key = arg_parent_key;
        self.field_usize_layer = arg_usize_layer;
        match arg_value {
            Value::Array(children) => {
                self.field_bool_children_in_stack = false;
                self.field_type = Some(EnumJsTypes::TypeArray);
                self.field_value = Some(EnumStorageTypes::TypeChildrenWithKeyInts(children));
            },
            Value::Object(entries) => {
                self.field_bool_children_in_stack = false;
                self.field_type = Some(EnumJsTypes::TypeObject);
                self.field_value = Some(EnumStorageTypes::TypeChildrenWithKeyStrings(entries));
            },
            Value::Scalar(s) => {
                self.field_bool_children_in_stack = true;
                self.field_type = Some(EnumJsTypes::TypeNotIterableOrIsString);
                self.field_value = Some(EnumStorageTypes::TypeValue(s));
            },
        }
    }

    pub fn logic_has_children(&self) -> (b: bool)
        ensures
            b == spec_has_children(*self),
    {
        match &self.field_value {
            Some(EnumStorageTypes::TypeChildrenWithKeyInts(_)) => true,
            Some(EnumStorageTypes::TypeChildrenWithKeyStrings(_)) => true,
            _ => false,
        }
    }

    /// Recomposes the node back into a value: the inverse of `setup`'s
    /// decomposition. Fails defensively when the declared shape and the
    /// container disagree (never on a well-formed node).
    pub fn get_value(self) -> (r: Result<Value, EngineError>)
        ensures
            node_wf(self) ==> (r matches Ok(v) && v@ == node_content(self)),
            !node_wf(self) ==> r == Err::<Value, EngineError>(EngineError::ShapeMismatch),
    {
        match (self.field_type, self.field_value) {
            (
                Some(EnumJsTypes::TypeArray),
                Some(EnumStorageTypes::TypeChildrenWithKeyInts(children)),
            ) => Ok(Value::Array(children)),
            (
                Some(EnumJsTypes::TypeObject),
                Some(EnumStorageTypes::TypeChildrenWithKeyStrings(entries)),
            ) => Ok(Value::Object(entries)),
            (
                Some(EnumJsTypes::TypeNotIterableOrIsString),
                Some(EnumStorageTypes::TypeValue(sc)),
            ) => Ok(Value::Scalar(sc)),
            _ => Err(EngineError::ShapeMismatch),
        }
    }

    /// Builds one child node per container entry, each one layer deeper and
    /// carrying its write-back key. The container keeps its length and its
    /// keys; the moved-out child values are replaced by placeholders that
    /// the collapse phase later overwrites. A scalar or never-set-up node
    /// contributes no children and is left untouched.
    pub fn get_vec_of_node_children(&mut self) -> (children: Vec<Node>)
        requires
            old(self).field_usize_layer < usize::MAX,
        ensures
            node_wf(*old(self)) ==> node_wf(*final(self)),
            final(self).field_bool_children_in_stack == old(self).field_bool_children_in_stack,
            final(self).field_parent_key == old(self).field_parent_key,
            final(self).field_type == old(self).field_type,
            final(self).field_usize_layer == old(self).field_usize_layer,
            old(self).field_value is None ==> (children@.len() == 0 && *final(self) == *old(
                self,
            )),
            (old(self).field_value matches Some(EnumStorageTypes::TypeValue(_))) ==> (
            children@.len() == 0 && *final(self) == *old(self)),
            old(self).field_value is Some ==> {
                &&& classify(node_content(*final(self))) == classify(node_content(*old(self)))
                &&& arity(node_content(*final(self))) == arity(node_content(*old(self)))
                &&& (forall|i: int|
                    0 <= i < arity(node_content(*old(self))) ==> object_key_at(
                        node_content(*final(self)),
                        i,
                    ) == object_key_at(node_content(*old(self)), i))
                &&& (node_content(*old(self)) is Scalar ==> node_content(*final(self))
                    == node_content(*old(self)))
                &&& children@.len() == arity(node_content(*old(self)))
                &&& (forall|i: int|
                    0 <= i < children@.len() ==> pending_node_ok(
                        children@[i],
                        old(self).field_usize_layer + 1,
                        key_at(node_content(*old(self)), i),
                        child_at(node_content(*old(self)), i),
                    ))
            },
    {
        let layer_child = self.field_usize_layer + 1;
        let storage = self.field_value.take();
        match storage {
            Some(EnumStorageTypes::TypeChildrenWithKeyInts(mut values)) => {
                let ghost orig = values@;
                let mut children: Vec<Node> = Vec::new();
                let mut kept: Vec<Value> = Vec::new();
                while values.len() > 0
                    invariant
                        children@.len() == kept@.len(),
                        children@.len() + values@.len() == orig.len(),
                        values@ == orig.subrange(children@.len() as int, orig.len() as int),
                        layer_child <= usize::MAX,
                        forall|i: int|
                            0 <= i < children@.len() ==> pending_node_ok(
                                children@[i],
                                layer_child as int,
                                KeyView::Index(i),
                                value_view(orig[i]),
                            ),
                    decreases values@.len(),
                {
                    let v = values.remove(0);
                    assert(v == orig[children@.len() as int]);
                    let mut child = Node::new();
                    child.setup(v, layer_child, Some(EnumKeyTypes::TypeInt(children.len())));
                    children.push(child);
                    kept.push(Value::Scalar(Scalar::Null));
                }
                self.field_value = Some(EnumStorageTypes::TypeChildrenWithKeyInts(kept));
                assert(node_content(*self) is Array);
                children
            },
            Some(EnumStorageTypes::TypeChildrenWithKeyStrings(mut entries)) => {
                let ghost orig = entries@;
                let mut children: Vec<Node> = Vec::new();
                let mut kept: Vec<(String, Value)> = Vec::new();
                while entries.len() > 0
                    invariant
                        children@.len() == kept@.len(),
                        children@.len() + entries@.len() == orig.len(),
                        entries@ == orig.subrange(children@.len() as int, orig.len() as int),
                        layer_child <= usize::MAX,
                        forall|i: int| 0 <= i < kept@.len() ==> kept@[i].0@ == orig[i].0@,
                        forall|i: int|
                            0 <= i < children@.len() ==> pending_node_ok(
                                children@[i],
                                layer_child as int,
                                KeyView::Name(orig[i].0@),
                                value_view(orig[i].1),
                            ),
                    decreases entries@.len(),
                {
                    let (k, v) = entries.remove(0);
                    assert((k, v) == orig[children@.len() as int]);
                    let key_clone = k.clone();
                    let mut child = Node::new();
                    child.setup(v, layer_child, Some(EnumKeyTypes::TypeString(key_clone)));
                    children.push(child);
                    kept.push((k, Value::Scalar(Scalar::Null)));
                }
                self.field_value = Some(EnumStorageTypes::TypeChildrenWithKeyStrings(kept));
                assert(node_content(*self) is Object);
                children
            },
            Some(EnumStorageTypes::TypeValue(sc)) => {
                self.field_value = Some(EnumStorageTypes::TypeValue(sc));
                Vec::new()
            },
            None => {
                self.field_value = None;
                Vec::new()
            },
        }
    }

    /// Writes a resolved child value into this node's container at the given
    /// key. Fails with `MissingIndex` when the key is not present, and with
    /// `ShapeMismatch` when the key kind or the container does not fit.
    pub fn set_value_at_key(&mut self, arg_key: &EnumKeyTypes, arg_value: Value) -> (r: Result<
        (),
        EngineError,
    >)
        ensures
            final(self).field_bool_children_in_stack == old(self).field_bool_children_in_stack,
            final(self).field_parent_key == old(self).field_parent_key,
            final(self).field_type == old(self).field_type,
            final(self).field_usize_layer == old(self).field_usize_layer,
            node_wf(*old(self)) ==> node_wf(*final(self)),
            r is Err ==> *final(self) == *old(self),
            node_wf(*old(self)) ==> forall|w: int|
                (0 <= w < arity(node_content(*old(self))) && distinct_keys(
                    node_content(*old(self)),
                ) && key_view(*arg_key) == #[trigger] key_at(node_content(*old(self)), w)) ==> (r
                    is Ok && node_content(*final(self)) == with_child_at(
                    node_content(*old(self)),
                    w,
                    arg_value@,
                )),
            ({
                let o = *old(self);
                let s = *final(self);
                match o.field_value {
                    Some(EnumStorageTypes::TypeChildrenWithKeyInts(v)) => match *arg_key {
                        EnumKeyTypes::TypeInt(i) => {
                            &&& (i < v@.len() ==> r is Ok && node_content(s) == with_child_at(
                                node_content(o),
                                i as int,
                                arg_value@,
                            ))
                            &&& (i >= v@.len() ==> r == Err::<(), EngineError>(
                                EngineError::MissingIndex,
                            ))
                        },
                        EnumKeyTypes::TypeString(_) => r == Err::<(), EngineError>(
                            EngineError::ShapeMismatch,
                        ),
                    },
                    Some(EnumStorageTypes::TypeChildrenWithKeyStrings(v)) => match *arg_key {
                        EnumKeyTypes::TypeString(name) => {
                            &&& ((forall|i: int| 0 <= i < v@.len() ==> v@[i].0@ != name@) ==> r
                                == Err::<(), EngineError>(EngineError::MissingIndex))
                            &&& ((exists|i: int| 0 <= i < v@.len() && v@[i].0@ == name@) ==> r
                                is Ok)
                            &&& forall|i: int|
                                (0 <= i < v@.len() && v@[i].0@ == name@ && (forall|j: int|
                                    0 <= j < i ==> v@[j].0@ != name@)) ==> node_content(s)
                                    == with_child_at(node_content(o), i, arg_value@)
                        },
                        EnumKeyTypes::TypeInt(_) => r == Err::<(), EngineError>(
                            EngineError::ShapeMismatch,
                        ),
                    },
                    Some(EnumStorageTypes::TypeValue(_)) => r == Err::<(), EngineError>(
                        EngineError::ShapeMismatch,
                    ),
                    None => r == Err::<(), EngineError>(EngineError::ShapeMismatch),
                }
            }),
    {
        let ghost av = arg_value@;
        let ghost node0 = *self;
        let storage = self.field_value.take();
        match storage {
            Some(EnumStorageTypes::TypeChildrenWithKeyInts(mut values)) => {
                match arg_key {
                    EnumKeyTypes::TypeInt(i) => {
                        let idx = *i;
                        if idx < values.len() {
                            let ghost oldvals = values@;
                            values[idx] = arg_value;
                            assert(value_views(values@) =~= value_views(oldvals).update(
                                idx as int,
                                arg_value@,
                            ));
                            self.field_value = Some(
                                EnumStorageTypes::TypeChildrenWithKeyInts(values),
                            );
                            Ok(())
                        } else {
                            self.field_value = Some(
                                EnumStorageTypes::TypeChildrenWithKeyInts(values),
                            );
                            Err(EngineError::MissingIndex)
                        }
                    },
                    EnumKeyTypes::TypeString(_) => {
                        self.field_value = Some(EnumStorageTypes::TypeChildrenWithKeyInts(values));
                        Err(EngineError::ShapeMismatch)
                    },
                }
            },
            Some(EnumStorageTypes::TypeChildrenWithKeyStrings(mut entries)) => {
                match arg_key {
                    EnumKeyTypes::TypeString(name) => {
                        let n = entries.len();
                        let mut probe: usize = 0;
                        let mut found: bool = false;
                        let mut found_at: usize = 0;
                        while probe < n
                            invariant
                                n == entries@.len(),
                                probe <= n,
                                !found ==> forall|j: int|
                                    0 <= j < probe ==> entries@[j].0@ != name@,
                                found ==> found_at < probe && entries@[found_at as int].0@
                                    == name@ && (forall|j: int|
                                    0 <= j < found_at ==> entries@[j].0@ != name@),
                            decreases n - probe,
                        {
                            if !found {
                                let e = &entries[probe];
                                if e.0 == *name {
                                    found = true;
                                    found_at = probe;
                                }
                            }
                            probe = probe + 1;
                        }
                        if found {
                            let ghost oldentries = entries@;
                            let key_clone = entries[found_at].0.clone();
                            entries[found_at] = (key_clone, arg_value);
                            assert(entry_views(entries@) =~= entry_views(oldentries).update(
                                found_at as int,
                                (oldentries[found_at as int].0@, arg_value@),
                            ));
                            self.field_value = Some(
                                EnumStorageTypes::TypeChildrenWithKeyStrings(entries),
                            );
                            proof {
                                let curv = node_content(node0);
                                let es = entry_views(oldentries);
                                assert(curv == ValueView::Object(es));
                                assert(es[found_at as int].0 == name@);
                                if distinct_keys(curv) {
                                    assert forall|w: int|
                                        (0 <= w < arity(curv) && key_view(*arg_key) == key_at(
                                            curv,
                                            w,
                                        )) implies node_content(*self) == with_child_at(
                                        curv,
                                        w,
                                        av,
                                    ) by {
                                        assert(key_at(curv, w) == KeyView::Name(es[w].0));
                                        assert(es[w].0 == name@);
                                        if w < found_at as int {
                                            assert(oldentries[w].0@ != name@);
                                            assert(false);
                                        }
                                        if w > found_at as int {
                                            assert(es[found_at as int].0 != es[w].0);
                                            assert(false);
                                        }
                                        assert(w == found_at as int);
                                        assert(node_content(*self) == ValueView::Object(
                                            es.update(found_at as int, (es[found_at as int].0, av)),
                                        ));
                                    }
                                }
                            }
                            Ok(())
                        } else {
                            self.field_value = Some(
                                EnumStorageTypes::TypeChildrenWithKeyStrings(entries),
                            );
                            proof {
                                let curv = node_content(node0);
                                let es = entry_views(entries@);
                                assert(forall|w: int|
                                    0 <= w < es.len() ==> #[trigger] es[w].0 != name@);
                            }
                            Err(EngineError::MissingIndex)
                        }
                    },
                    EnumKeyTypes::TypeInt(_) => {
                        self.field_value = Some(
                            EnumStorageTypes::TypeChildrenWithKeyStrings(entries),
                        );
                        Err(EngineError::ShapeMismatch)
                    },
                }
            },
            Some(EnumStorageTypes::TypeValue(sc)) => {
                self.field_value = Some(EnumStorageTypes::TypeValue(sc));
                Err(EngineError::ShapeMismatch)
            },
            None => {
                self.field_value = None;
                Err(EngineError::ShapeMismatch)
            },
        }
    }
}

} // verus!
