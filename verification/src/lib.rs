//! Iterative, explicit-stack transformation of nested tree values.
//!
//! The library walks an arbitrarily nested tree of values (indexed sequences,
//! string-keyed maps, and atomic scalar leaves) bottom-up, applies a
//! caller-supplied transform to every scalar leaf, and reassembles the tree
//! with the transformed leaves in place. The walk keeps its own work stack
//! instead of recursing, so its call depth does not grow with the depth of
//! the input tree.

use vstd::prelude::*;

pub mod laws;
pub mod node;
pub mod value;

verus! {

use crate::node::{classify, node_content, node_wf, pending_node_ok, EnumStorageTypes, Node};
use crate::node::key_view;
use crate::value::{
    arity, child_at, child_sizes_from, distinct_keys, key_at, map_children, map_entries,
    map_leaves, object_key_at, tree_size, well_formed, with_child_at, KeyView, Scalar, ScalarView,
    Value, ValueView,
};

broadcast use crate::value::lemma_value_views, crate::value::lemma_entry_views;

/// How a transform can fail. Only `CallbackFailed` is expected in normal
/// operation; the remaining kinds are defensive and signal a broken internal
/// invariant or a misused `Node`.
#[derive(Clone, Copy, Debug, PartialEq, Eq, Structural)]
pub enum EngineError {
    /// A node's stored container does not match its declared shape.
    ShapeMismatch,
    /// A container key that should be present was not found.
    MissingIndex,
    /// The leaf transform callback failed on a scalar leaf.
    CallbackFailed,
    /// The collapse phase found no ancestor at the expected depth.
    OrphanedNode,
    /// The work stack emptied before the walk reached a terminal state.
    StackExhausted,
}

/// A leaf transform callback: one scalar in, one scalar out, or a failure.
///
/// `spec_apply` is the mathematical description of the callback; `apply` is
/// the executable side and must return exactly what `spec_apply` says.
pub trait LeafTransform {
    spec fn spec_apply(&self, s: ScalarView) -> Option<ScalarView>;

    fn apply(&self, arg_value: &Scalar) -> (r: Option<Scalar>)
        ensures
            match self.spec_apply(arg_value@) {
                Some(t) => r matches Some(u) && u@ == t,
                None => r is None,
            },
    ;
}

/// The leaf function a callback denotes, as a plain mathematical function.
pub open spec fn leaf_spec<F: LeafTransform>(cb: F) -> spec_fn(ScalarView) -> Option<ScalarView> {
    |s: ScalarView| cb.spec_apply(s)
}

/// Invokes the callback on one scalar, turning a callback failure into
/// `CallbackFailed`.
pub fn get_value_returned_from_callback<F: LeafTransform>(
    arg_value: &Scalar,
    arg_callback: &F,
) -> (r: Result<Scalar, EngineError>)
    ensures
        match arg_callback.spec_apply(arg_value@) {
            Some(t) => r matches Ok(u) && u@ == t,
            None => r == Err::<Scalar, EngineError>(EngineError::CallbackFailed),
        },
{
    if let Some(value_returned) = arg_callback.apply(arg_value) {
        Ok(value_returned)
    } else {
        Err(EngineError::CallbackFailed)
    }
}

fn clone_scalar(s: &Scalar) -> (r: Scalar)
    ensures
        r@ == s@,
{
    match s {
        Scalar::Int(n) => Scalar::Int(*n),
        Scalar::Bool(b) => Scalar::Bool(*b),
        Scalar::Text(t) => Scalar::Text(t.clone()),
        Scalar::Null => Scalar::Null,
        Scalar::NumberBits(b) => Scalar::NumberBits(*b),
    }
}

/// The identity leaf transform: every leaf maps to itself.
pub struct IdentityCallback;

impl LeafTransform for IdentityCallback {
    open spec fn spec_apply(&self, s: ScalarView) -> Option<ScalarView> {
        Some(s)
    }

    fn apply(&self, arg_value: &Scalar) -> (r: Option<Scalar>) {
        Some(clone_scalar(arg_value))
    }
}

/// A leaf transform that multiplies integer leaves by a fixed factor and
/// leaves every other leaf unchanged; it fails on overflow.
pub struct ScaleNumbers {
    pub factor: i64,
}

impl LeafTransform for ScaleNumbers {
    open spec fn spec_apply(&self, s: ScalarView) -> Option<ScalarView> {
        match s {
            ScalarView::Int(n) => {
                let p = n as int * self.factor as int;
                if i64::MIN <= p <= i64::MAX {
                    Some(ScalarView::Int(p as i64))
                } else {
                    None
                }
            },
            _ => Some(s),
        }
    }

    fn apply(&self, arg_value: &Scalar) -> (r: Option<Scalar>) {
        match arg_value {
            Scalar::Int(n) => match n.checked_mul(self.factor) {
                Some(p) => Some(Scalar::Int(p)),
                None => None,
            },
            _ => Some(clone_scalar(arg_value)),
        }
    }
}

/// A leaf transform that fails on every leaf.
pub struct RejectAll;

impl LeafTransform for RejectAll {
    open spec fn spec_apply(&self, s: ScalarView) -> Option<ScalarView> {
        None
    }

    fn apply(&self, arg_value: &Scalar) -> (r: Option<Scalar>) {
        None
    }
}

/// Work remaining for one stack node: a node still to be expanded carries
/// its whole subtree; an already-expanded node only waits for its collapse.
pub open spec fn node_weight(n: Node) -> nat {
    if !n.field_bool_children_in_stack {
        3 * tree_size(node_content(n))
    } else if n.field_value matches Some(EnumStorageTypes::TypeValue(_)) {
        2
    } else {
        1
    }
}

/// Work remaining for the whole stack.
pub open spec fn stack_measure(s: Seq<Node>) -> nat
    decreases s,
{
    if s.len() == 0 {
        0
    } else {
        node_weight(s[0]) + stack_measure(s.subrange(1, s.len() as int))
    }
}

proof fn lemma_stack_measure_concat(a: Seq<Node>, b: Seq<Node>)
    ensures
        stack_measure(a + b) == stack_measure(a) + stack_measure(b),
    decreases a,
{
    if a.len() == 0 {
        assert(a + b =~= b);
    } else {
        lemma_stack_measure_concat(a.subrange(1, a.len() as int), b);
        assert((a + b).subrange(1, (a + b).len() as int) =~= a.subrange(1, a.len() as int) + b);
        assert((a + b)[0] == a[0]);
    }
}

proof fn lemma_stack_measure_last(s: Seq<Node>)
    requires
        s.len() > 0,
    ensures
        stack_measure(s) == stack_measure(s.drop_last()) + node_weight(s.last()),
{
    lemma_stack_measure_concat(s.drop_last(), seq![s.last()]);
    assert(s.drop_last() + seq![s.last()] =~= s);
    assert(stack_measure(seq![s.last()]) == node_weight(s.last())) by {
        assert(seq![s.last()].subrange(1, 1) =~= Seq::<Node>::empty());
        assert(stack_measure(Seq::<Node>::empty()) == 0);
        assert(seq![s.last()][0] == s.last());
    };
}

proof fn lemma_stack_measure_update(s: Seq<Node>, i: int, n: Node)
    requires
        0 <= i < s.len(),
    ensures
        stack_measure(s.update(i, n)) == stack_measure(s) - node_weight(s[i]) + node_weight(n),
    decreases s,
{
    if i == 0 {
        assert(s.update(0, n).subrange(1, s.len() as int) =~= s.subrange(1, s.len() as int));
        assert(s.update(0, n)[0] == n);
    } else {
        lemma_stack_measure_update(s.subrange(1, s.len() as int), i - 1, n);
        assert(s.update(i, n).subrange(1, s.len() as int) =~= s.subrange(
            1,
            s.len() as int,
        ).update(i - 1, n));
        assert(s.update(i, n)[0] == s[0]);
    }
}

/// Freshly set-up children weigh no more than three times the sizes of the
/// subtrees they carry.
proof fn lemma_pending_children_measure(ch: Seq<Node>, o: ValueView, layer: int, k: int)
    requires
        0 <= k,
        ch.len() == arity(o) - k,
        forall|i: int|
            0 <= i < ch.len() ==> pending_node_ok(ch[i], layer, key_at(o, k + i), child_at(o, k + i)),
    ensures
        stack_measure(ch) <= 3 * child_sizes_from(o, k),
    decreases ch,
{
    if ch.len() > 0 {
        assert(pending_node_ok(ch[0], layer, key_at(o, k), child_at(o, k)));
        let tail = ch.subrange(1, ch.len() as int);
        assert forall|i: int| 0 <= i < tail.len() implies pending_node_ok(
            tail[i],
            layer,
            key_at(o, k + 1 + i),
            child_at(o, k + 1 + i),
        ) by {
            assert(tail[i] == ch[i + 1]);
        }
        lemma_pending_children_measure(tail, o, layer, k + 1);
        assert(node_weight(ch[0]) <= 3 * tree_size(child_at(o, k))) by {
            if ch[0].field_bool_children_in_stack {
                assert(child_sizes_from(child_at(o, k), 0) == 0);
                assert(tree_size(child_at(o, k)) == 1);
            }
        }
        assert(child_sizes_from(o, k) == tree_size(child_at(o, k)) + child_sizes_from(o, k + 1));
    }
}

/// A child of a well-formed tree is well formed.
proof fn lemma_child_well_formed(o: ValueView, i: int)
    requires
        well_formed(o),
        0 <= i < arity(o),
    ensures
        well_formed(child_at(o, i)),
{
    match o {
        ValueView::Array(cs) => {
            assert(well_formed(cs[i]));
        },
        ValueView::Object(es) => {
            assert(well_formed(es[i].1));
        },
        ValueView::Scalar(_) => {},
    }
}

proof fn lemma_child_sizes_ge(o: ValueView, k: int, i: int)
    requires
        0 <= k <= i < arity(o),
    ensures
        child_sizes_from(o, k) >= tree_size(child_at(o, i)),
    decreases i - k,
{
    if k < i {
        lemma_child_sizes_ge(o, k + 1, i);
    }
}

/// A child's tree is strictly smaller than its parent's.
proof fn lemma_child_size_lt(o: ValueView, i: int)
    requires
        0 <= i < arity(o),
    ensures
        tree_size(child_at(o, i)) < tree_size(o),
{
    lemma_child_sizes_ge(o, 0, i);
}

/// Transformed children, collected one by one, assemble to `map_children`.
proof fn lemma_map_children_of_resolved(
    f: spec_fn(ScalarView) -> Option<ScalarView>,
    cs: Seq<ValueView>,
    ds: Seq<ValueView>,
)
    requires
        ds.len() == cs.len(),
        forall|i: int| #![auto] 0 <= i < cs.len() ==> map_leaves(f, cs[i]) == Some(ds[i]),
    ensures
        map_children(f, cs) == Some(ds),
    decreases cs,
{
    if cs.len() == 0 {
        assert(ds =~= Seq::<ValueView>::empty());
    } else {
        let cst = cs.subrange(1, cs.len() as int);
        let dst = ds.subrange(1, ds.len() as int);
        assert forall|i: int| #![auto] 0 <= i < cst.len() implies map_leaves(f, cst[i]) == Some(
            dst[i],
        ) by {
            assert(cst[i] == cs[i + 1] && dst[i] == ds[i + 1]);
        }
        lemma_map_children_of_resolved(f, cst, dst);
        assert(seq![ds[0]] + dst =~= ds);
    }
}

/// Transformed entries, keys kept, assemble to `map_entries`.
proof fn lemma_map_entries_of_resolved(
    f: spec_fn(ScalarView) -> Option<ScalarView>,
    es: Seq<(Seq<char>, ValueView)>,
    us: Seq<(Seq<char>, ValueView)>,
)
    requires
        us.len() == es.len(),
        forall|i: int| #![auto] 0 <= i < es.len() ==> us[i].0 == es[i].0,
        forall|i: int| #![auto] 0 <= i < es.len() ==> map_leaves(f, es[i].1) == Some(us[i].1),
    ensures
        map_entries(f, es) == Some(us),
    decreases es,
{
    if es.len() == 0 {
        assert(us =~= Seq::<(Seq<char>, ValueView)>::empty());
    } else {
        let est = es.subrange(1, es.len() as int);
        let ust = us.subrange(1, us.len() as int);
        assert forall|i: int| #![auto] 0 <= i < est.len() implies ust[i].0 == est[i].0
            && map_leaves(f, est[i].1) == Some(ust[i].1) by {
            assert(est[i] == es[i + 1] && ust[i] == us[i + 1]);
        }
        lemma_map_entries_of_resolved(f, est, ust);
        assert((us[0].0, us[0].1) == us[0]);
        assert(seq![us[0]] + ust =~= us);
    }
}

/// A container all of whose children hold transformed values recomposes to
/// exactly `map_leaves` of the original.
proof fn lemma_map_leaves_assembled(
    f: spec_fn(ScalarView) -> Option<ScalarView>,
    o: ValueView,
    cur: ValueView,
)
    requires
        !(o is Scalar),
        classify(cur) == classify(o),
        arity(cur) == arity(o),
        forall|i: int| #![auto] 0 <= i < arity(o) ==> object_key_at(cur, i) == object_key_at(o, i),
        forall|i: int|
            #![auto]
            0 <= i < arity(o) ==> map_leaves(f, child_at(o, i)) == Some(child_at(cur, i)),
    ensures
        map_leaves(f, o) == Some(cur),
{
    match o {
        ValueView::Array(cs) => {
            let ds = cur->Array_0;
            assert forall|i: int| #![auto] 0 <= i < cs.len() implies map_leaves(f, cs[i]) == Some(
                ds[i],
            ) by {
                assert(child_at(o, i) == cs[i] && child_at(cur, i) == ds[i]);
            }
            lemma_map_children_of_resolved(f, cs, ds);
        },
        ValueView::Object(es) => {
            let us = cur->Object_0;
            assert forall|i: int| #![auto] 0 <= i < es.len() implies us[i].0 == es[i].0
                && map_leaves(f, es[i].1) == Some(us[i].1) by {
                assert(object_key_at(o, i) == es[i].0 && object_key_at(cur, i) == us[i].0);
                assert(child_at(o, i) == es[i].1 && child_at(cur, i) == us[i].1);
            }
            lemma_map_entries_of_resolved(f, es, us);
        },
        ValueView::Scalar(_) => {},
    }
}

/// A container with one failing child fails as a whole.
proof fn lemma_child_failure(f: spec_fn(ScalarView) -> Option<ScalarView>, o: ValueView, i: int)
    requires
        0 <= i < arity(o),
        map_leaves(f, child_at(o, i)) is None,
    ensures
        map_leaves(f, o) is None,
{
    match o {
        ValueView::Array(cs) => {
            if map_children(f, cs) is Some {
                crate::laws::lemma_children_entrywise(f, cs, map_children(f, cs)->Some_0);
            }
        },
        ValueView::Object(es) => {
            if map_entries(f, es) is Some {
                crate::laws::lemma_entries_entrywise(f, es, map_entries(f, es)->Some_0);
            }
        },
        ValueView::Scalar(_) => {},
    }
}

/// A failure anywhere along the chain of open subtrees fails the root.
proof fn lemma_none_up_chain(
    f: spec_fn(ScalarView) -> Option<ScalarView>,
    origs: Seq<ValueView>,
    ws: Seq<int>,
)
    requires
        origs.len() >= 1,
        ws.len() == origs.len(),
        forall|j: int|
            #![auto]
            1 <= j < origs.len() ==> 0 <= ws[j] < arity(origs[j - 1]) && origs[j] == child_at(
                origs[j - 1],
                ws[j],
            ),
        map_leaves(f, origs[origs.len() - 1]) is None,
    ensures
        map_leaves(f, origs[0]) is None,
    decreases origs.len(),
{
    if origs.len() > 1 {
        let m = origs.len() - 1;
        lemma_child_failure(f, origs[m - 1], ws[m]);
        lemma_none_up_chain(f, origs.drop_last(), ws.drop_last());
    }
}

/// Pending (not yet visited) children directly above open node `j`.
pub open spec fn block_len(stack_len: int, pos: Seq<int>, j: int) -> int {
    if j + 1 < pos.len() {
        pos[j + 1] - pos[j] - 1
    } else {
        stack_len - pos[j] - 1
    }
}

/// Children of open node `j` whose transformed value has not yet been
/// written back: the pending ones, plus the one being walked below (if any).
pub open spec fn unresolved_count(stack_len: int, pos: Seq<int>, j: int) -> int {
    block_len(stack_len, pos, j) + if j + 1 < pos.len() {
        1int
    } else {
        0int
    }
}

/// Open node `j` of the walk: expanded, at layer `j`, its container the
/// same shape and keys as the original subtree `origs[j]`, every child past
/// `unresolved_count` already holding its transformed value, and its still
/// pending children sitting directly above it on the stack.
pub open spec fn open_node_ok(
    stack: Seq<Node>,
    pos: Seq<int>,
    origs: Seq<ValueView>,
    f: spec_fn(ScalarView) -> Option<ScalarView>,
    j: int,
) -> bool {
    let e = stack[pos[j]];
    let o = origs[j];
    let u = unresolved_count(stack.len() as int, pos, j);
    &&& node_wf(e)
    &&& e.field_bool_children_in_stack
    &&& e.field_usize_layer == j
    &&& well_formed(o)
    &&& classify(node_content(e)) == classify(o)
    &&& arity(node_content(e)) == arity(o)
    &&& (forall|i: int|
        #![auto]
        0 <= i < arity(o) ==> object_key_at(node_content(e), i) == object_key_at(o, i))
    &&& 0 <= u <= arity(o)
    &&& (forall|i: int|
        #![auto]
        u <= i < arity(o) ==> map_leaves(f, child_at(o, i)) == Some(child_at(node_content(e), i)))
    &&& (o is Scalar ==> node_content(e) == o)
    &&& j + tree_size(o) <= tree_size(origs[0])
    &&& (forall|i: int|
        #![auto]
        0 <= i < block_len(stack.len() as int, pos, j) ==> pending_node_ok(
            stack[pos[j] + 1 + i],
            j + 1,
            key_at(o, i),
            child_at(o, i),
        ))
}

/// Open node `j` is the child of open node `j - 1` currently being walked,
/// and carries the write-back key of that child.
pub open spec fn chain_ok(
    stack: Seq<Node>,
    pos: Seq<int>,
    origs: Seq<ValueView>,
    j: int,
) -> bool {
    let e = stack[pos[j]];
    let w = unresolved_count(stack.len() as int, pos, j - 1) - 1;
    &&& origs[j] == child_at(origs[j - 1], w)
    &&& (e.field_parent_key matches Some(pk) && key_view(pk) == key_at(origs[j - 1], w))
}

/// The whole stack is a valid walk configuration: a chain of open nodes at
/// positions `pos`, each followed by its pending children, rooted at the
/// input tree.
pub open spec fn engine_inv(
    stack: Seq<Node>,
    pos: Seq<int>,
    origs: Seq<ValueView>,
    f: spec_fn(ScalarView) -> Option<ScalarView>,
    t0: ValueView,
) -> bool {
    &&& pos.len() == origs.len()
    &&& pos.len() >= 1
    &&& pos[0] == 0
    &&& (forall|j: int| 0 <= j < pos.len() - 1 ==> #[trigger] pos[j] < pos[j + 1])
    &&& (forall|j: int| 0 <= j < pos.len() ==> 0 <= #[trigger] pos[j] < stack.len())
    &&& origs[0] == t0
    &&& stack[0].field_parent_key is None
    &&& (forall|j: int| #![auto] 0 <= j < pos.len() ==> open_node_ok(stack, pos, origs, f, j))
    &&& (forall|j: int| #![auto] 1 <= j < pos.len() ==> chain_ok(stack, pos, origs, j))
}

/// The start configuration: the root node alone, not yet expanded unless
/// the input is a bare scalar.
pub open spec fn start_config(stack: Seq<Node>, t0: ValueView) -> bool {
    &&& stack.len() == 1
    &&& node_wf(stack[0])
    &&& stack[0].field_usize_layer == 0
    &&& stack[0].field_parent_key is None
    &&& node_content(stack[0]) == t0
    &&& stack[0].field_bool_children_in_stack == (t0 is Scalar)
    &&& well_formed(t0)
}

proof fn lemma_pos_mono(pos: Seq<int>, a: int, b: int)
    requires
        forall|j: int| 0 <= j < pos.len() - 1 ==> #[trigger] pos[j] < pos[j + 1],
        0 <= a <= b < pos.len(),
    ensures
        pos[a] <= pos[b],
        a < b ==> pos[a] < pos[b],
    decreases b - a,
{
    if a < b {
        lemma_pos_mono(pos, a, b - 1);
    }
}

/// Every stack index at or after `pos[0]` lies at some `pos[j]` or inside
/// the pending block of some open node `j`.
proof fn lemma_locate(pos: Seq<int>, stack_len: int, k: int)
    requires
        pos.len() >= 1,
        pos[0] == 0,
        forall|j: int| 0 <= j < pos.len() - 1 ==> #[trigger] pos[j] < pos[j + 1],
        forall|j: int| 0 <= j < pos.len() ==> 0 <= #[trigger] pos[j] < stack_len,
        0 <= k < stack_len,
    ensures
        exists|j: int|
            0 <= j < pos.len() && #[trigger] pos[j] <= k && (j + 1 < pos.len() ==> k
                < pos[j + 1]),
    decreases pos.len(),
{
    let m = pos.len() - 1;
    if pos[m] <= k {
        assert(0 <= m < pos.len() && pos[m] <= k && (m + 1 < pos.len() ==> k < pos[m + 1]));
    } else {
        let shorter = pos.drop_last();
        lemma_locate(shorter, stack_len, k);
        let j = choose|j: int|
            0 <= j < shorter.len() && #[trigger] shorter[j] <= k && (j + 1 < shorter.len() ==> k
                < shorter[j + 1]);
        assert(pos[j] <= k && (j + 1 < pos.len() ==> k < pos[j + 1]));
    }
}

/// No stack slot strictly above open node `jp` is an expanded node at
/// layer `jp`: the scan from the top finds `pos[jp]` first.
proof fn lemma_no_match_above(
    stack: Seq<Node>,
    pos: Seq<int>,
    origs: Seq<ValueView>,
    f: spec_fn(ScalarView) -> Option<ScalarView>,
    jp: int,
)
    requires
        engine_inv(stack, pos, origs, f, t0_of(origs)),
        0 <= jp < pos.len(),
    ensures
        forall|k: int|
            pos[jp] < k < stack.len() ==> !(stack[k].field_usize_layer == jp
                && stack[k].field_bool_children_in_stack),
{
    assert forall|k: int| pos[jp] < k < stack.len() implies !(stack[k].field_usize_layer == jp
        && stack[k].field_bool_children_in_stack) by {
        lemma_locate(pos, stack.len() as int, k);
        let j = choose|j: int|
            0 <= j < pos.len() && #[trigger] pos[j] <= k && (j + 1 < pos.len() ==> k
                < pos[j + 1]);
        if j < jp {
            lemma_pos_mono(pos, j + 1, jp);
            assert(false);
        }
        if k == pos[j] {
            assert(open_node_ok(stack, pos, origs, f, j));
            assert(j > jp) by {
                lemma_pos_mono(pos, jp, j);
            }
        } else {
            let i = k - pos[j] - 1;
            assert(0 <= i < block_len(stack.len() as int, pos, j));
            assert(open_node_ok(stack, pos, origs, f, j));
            assert(pending_node_ok(stack[k], j + 1, key_at(origs[j], i), child_at(origs[j], i)));
            assert(stack[k].field_usize_layer == j + 1 && j + 1 > jp);
        }
    }
}

/// The root of a configuration's chain of originals.
pub open spec fn t0_of(origs: Seq<ValueView>) -> ValueView {
    origs[0]
}

/// An open node, its pending block and its original subtree carry over to a
/// new configuration in which its slots, its position and its counts are
/// unchanged.
proof fn lemma_open_preserved(
    s_old: Seq<Node>,
    s_new: Seq<Node>,
    pos_old: Seq<int>,
    origs_old: Seq<ValueView>,
    pos_new: Seq<int>,
    origs_new: Seq<ValueView>,
    f: spec_fn(ScalarView) -> Option<ScalarView>,
    j: int,
)
    requires
        0 <= j < pos_old.len(),
        j < pos_new.len(),
        open_node_ok(s_old, pos_old, origs_old, f, j),
        block_len(s_new.len() as int, pos_new, j) >= 0,
        block_len(s_new.len() as int, pos_new, j) <= block_len(s_old.len() as int, pos_old, j),
        pos_new[j] == pos_old[j],
        origs_new[j] == origs_old[j],
        origs_new[0] == origs_old[0],
        unresolved_count(s_new.len() as int, pos_new, j) == unresolved_count(
            s_old.len() as int,
            pos_old,
            j,
        ),
        forall|k: int|
            pos_old[j] <= k < pos_old[j] + 1 + block_len(s_new.len() as int, pos_new, j) ==> (0
                <= k < s_new.len() && k < s_old.len() && #[trigger] s_new[k] == s_old[k]),
    ensures
        open_node_ok(s_new, pos_new, origs_new, f, j),
{
    assert(s_new[pos_new[j]] == s_old[pos_old[j]]);
    assert forall|i: int|
        0 <= i < block_len(s_new.len() as int, pos_new, j) implies pending_node_ok(
        s_new[pos_new[j] + 1 + i],
        j + 1,
        key_at(origs_new[j], i),
        child_at(origs_new[j], i),
    ) by {
        assert(s_new[pos_old[j] + 1 + i] == s_old[pos_old[j] + 1 + i]);
    }
}

/// The chain link of an open node carries over likewise.
proof fn lemma_chain_preserved(
    s_old: Seq<Node>,
    s_new: Seq<Node>,
    pos_old: Seq<int>,
    origs_old: Seq<ValueView>,
    pos_new: Seq<int>,
    origs_new: Seq<ValueView>,
    j: int,
)
    requires
        1 <= j < pos_old.len(),
        j < pos_new.len(),
        chain_ok(s_old, pos_old, origs_old, j),
        pos_new[j] == pos_old[j],
        origs_new[j] == origs_old[j],
        origs_new[j - 1] == origs_old[j - 1],
        s_new[pos_new[j]].field_parent_key == s_old[pos_old[j]].field_parent_key,
        0 <= pos_old[j] < s_old.len(),
        unresolved_count(s_new.len() as int, pos_new, j - 1) == unresolved_count(
            s_old.len() as int,
            pos_old,
            j - 1,
        ),
    ensures
        chain_ok(s_new, pos_new, origs_new, j),
{
}

/// A pending child expands: the stack gains an open node in its slot and
/// that node's own pending children above it.
proof fn lemma_expand_transition(
    s0: Seq<Node>,
    s2: Seq<Node>,
    pos: Seq<int>,
    origs: Seq<ValueView>,
    f: spec_fn(ScalarView) -> Option<ScalarView>,
    t0: ValueView,
    expanded_node: Node,
    ch: Seq<Node>,
)
    requires
        engine_inv(s0, pos, origs, f, t0),
        pos[pos.len() - 1] < s0.len() - 1,
        !s0[s0.len() - 1].field_bool_children_in_stack,
        expanded_node.field_bool_children_in_stack,
        node_wf(expanded_node),
        expanded_node.field_parent_key == s0[s0.len() - 1].field_parent_key,
        expanded_node.field_usize_layer == s0[s0.len() - 1].field_usize_layer,
        classify(node_content(expanded_node)) == classify(node_content(s0[s0.len() - 1])),
        arity(node_content(expanded_node)) == arity(node_content(s0[s0.len() - 1])),
        forall|i: int|
            0 <= i < arity(node_content(s0[s0.len() - 1])) ==> object_key_at(
                node_content(expanded_node),
                i,
            ) == object_key_at(node_content(s0[s0.len() - 1]), i),
        ch.len() == arity(node_content(s0[s0.len() - 1])),
        forall|i: int|
            0 <= i < ch.len() ==> pending_node_ok(
                ch[i],
                s0[s0.len() - 1].field_usize_layer + 1,
                key_at(node_content(s0[s0.len() - 1]), i),
                child_at(node_content(s0[s0.len() - 1]), i),
            ),
        s2 == s0.drop_last() + seq![expanded_node] + ch,
    ensures
        engine_inv(
            s2,
            pos.push(s0.len() - 1),
            origs.push(node_content(s0[s0.len() - 1])),
            f,
            t0,
        ),
{
    let m1 = pos.len() as int;
    let o_l = origs[m1 - 1];
    let bl = block_len(s0.len() as int, pos, m1 - 1);
    let sub = child_at(o_l, bl - 1);
    assert(open_node_ok(s0, pos, origs, f, m1 - 1));
    assert(bl >= 1);
    assert(pos[m1 - 1] + 1 + (bl - 1) == s0.len() - 1);
    assert(pending_node_ok(s0[s0.len() - 1], m1, key_at(o_l, bl - 1), sub));
    assert(node_content(s0[s0.len() - 1]) == sub);
    assert(!(sub is Scalar));
    assert(0 <= bl - 1 < arity(o_l)) by {
        assert(unresolved_count(s0.len() as int, pos, m1 - 1) >= bl);
    }
    lemma_child_size_lt(o_l, bl - 1);
    lemma_child_well_formed(o_l, bl - 1);
    let npos = pos.push(s0.len() - 1);
    let norigs = origs.push(sub);
    assert(forall|k: int| 0 <= k < s0.len() - 1 ==> #[trigger] s2[k] == s0[k]);
    assert(s2[s0.len() - 1] == expanded_node);
    assert(forall|i: int| 0 <= i < ch.len() ==> #[trigger] s2[s0.len() + i] == ch[i]);
    assert forall|j: int| 0 <= j < npos.len() implies open_node_ok(s2, npos, norigs, f, j) by {
        if j < m1 {
            if j < m1 - 1 {
                assert(unresolved_count(s2.len() as int, npos, j) == unresolved_count(
                    s0.len() as int,
                    pos,
                    j,
                ));
            } else {
                assert(block_len(s2.len() as int, npos, j) == bl - 1);
                assert(unresolved_count(s2.len() as int, npos, j) == bl);
                assert(unresolved_count(s0.len() as int, pos, j) == bl);
            }
            assert(block_len(s2.len() as int, npos, j) >= 0) by {
                if j < m1 - 1 {
                    assert(pos[j] < pos[j + 1]);
                }
            }
            assert forall|k: int|
                pos[j] <= k < pos[j] + 1 + block_len(s2.len() as int, npos, j) implies (0 <= k
                < s2.len() && k < s0.len() && #[trigger] s2[k] == s0[k]) by {
                if j < m1 - 1 {
                    lemma_pos_mono(pos, j + 1, m1 - 1);
                    assert(k < pos[m1 - 1]);
                } else {
                    assert(k <= pos[j] + bl - 1);
                }
                assert(k < s0.len() - 1);
            }
            lemma_open_preserved(s0, s2, pos, origs, npos, norigs, f, j);
        } else {
            assert(j == m1);
            assert(npos[j] == s0.len() - 1);
            assert(s2[npos[j]] == expanded_node);
            assert(block_len(s2.len() as int, npos, j) == arity(sub));
            assert(unresolved_count(s2.len() as int, npos, j) == arity(sub));
            assert forall|i: int|
                0 <= i < block_len(s2.len() as int, npos, j) implies pending_node_ok(
                s2[npos[j] + 1 + i],
                j + 1,
                key_at(sub, i),
                child_at(sub, i),
            ) by {
                assert(s2[s0.len() + i] == ch[i]);
            }
            assert(m1 - 1 + tree_size(o_l) <= tree_size(t0));
            assert(m1 + tree_size(sub) <= tree_size(t0));
        }
    }
    assert forall|j: int| 1 <= j < npos.len() implies chain_ok(s2, npos, norigs, j) by {
        if j < m1 {
            if j - 1 < m1 - 1 {
                assert(unresolved_count(s2.len() as int, npos, j - 1) == unresolved_count(
                    s0.len() as int,
                    pos,
                    j - 1,
                ));
            }
            assert(s2[npos[j]] == s0[pos[j]]) by {
                lemma_pos_mono(pos, j, m1 - 1);
            }
            lemma_chain_preserved(s0, s2, pos, origs, npos, norigs, j);
        } else {
            assert(j == m1);
            assert(unresolved_count(s2.len() as int, npos, m1 - 1) == bl);
            assert(s2[npos[m1]] == expanded_node);
            assert(norigs[m1] == child_at(o_l, bl - 1));
        }
    }
    assert(engine_inv(s2, npos, norigs, f, t0));
}

/// The not-yet-expanded root expands into the first open node.
proof fn lemma_expand_start(
    s0: Seq<Node>,
    s2: Seq<Node>,
    f: spec_fn(ScalarView) -> Option<ScalarView>,
    t0: ValueView,
    expanded_node: Node,
    ch: Seq<Node>,
)
    requires
        start_config(s0, t0),
        !(t0 is Scalar),
        expanded_node.field_bool_children_in_stack,
        node_wf(expanded_node),
        expanded_node.field_parent_key == s0[0].field_parent_key,
        expanded_node.field_usize_layer == 0,
        classify(node_content(expanded_node)) == classify(t0),
        arity(node_content(expanded_node)) == arity(t0),
        forall|i: int|
            0 <= i < arity(t0) ==> object_key_at(node_content(expanded_node), i) == object_key_at(
                t0,
                i,
            ),
        ch.len() == arity(t0),
        forall|i: int|
            0 <= i < ch.len() ==> pending_node_ok(ch[i], 1, key_at(t0, i), child_at(t0, i)),
        s2 == s0.drop_last() + seq![expanded_node] + ch,
    ensures
        engine_inv(s2, seq![0int], seq![t0], f, t0),
{
    let pos = seq![0int];
    let origs = seq![t0];
    assert(s2[0] == expanded_node);
    assert(forall|i: int| 0 <= i < ch.len() ==> #[trigger] s2[1 + i] == ch[i]);
    assert(open_node_ok(s2, pos, origs, f, 0)) by {
        assert(block_len(s2.len() as int, pos, 0) == arity(t0));
        assert(unresolved_count(s2.len() as int, pos, 0) == arity(t0));
        assert forall|i: int|
            0 <= i < block_len(s2.len() as int, pos, 0) implies pending_node_ok(
            s2[pos[0] + 1 + i],
            1,
            key_at(t0, i),
            child_at(t0, i),
        ) by {
            assert(s2[1 + i] == ch[i]);
        }
    }
    assert(engine_inv(s2, pos, origs, f, t0));
}

/// A failure below any open node fails the whole transform.
proof fn lemma_failure_transition(
    s0: Seq<Node>,
    pos: Seq<int>,
    origs: Seq<ValueView>,
    f: spec_fn(ScalarView) -> Option<ScalarView>,
    t0: ValueView,
)
    requires
        engine_inv(s0, pos, origs, f, t0),
        map_leaves(f, origs[origs.len() - 1]) is None,
    ensures
        map_leaves(f, t0) is None,
{
    let ws = Seq::new(origs.len(), |j: int| unresolved_count(s0.len() as int, pos, j - 1) - 1);
    assert forall|j: int| 1 <= j < origs.len() implies 0 <= ws[j] < arity(origs[j - 1])
        && origs[j] == child_at(origs[j - 1], ws[j]) by {
        assert(chain_ok(s0, pos, origs, j));
        assert(open_node_ok(s0, pos, origs, f, j - 1));
    }
    lemma_none_up_chain(f, origs, ws);
}

/// Writing the transform of the last pending child of the deepest open node
/// into its container keeps the configuration valid.
proof fn lemma_collapse_leaf_transition(
    s0: Seq<Node>,
    s2: Seq<Node>,
    pos: Seq<int>,
    origs: Seq<ValueView>,
    f: spec_fn(ScalarView) -> Option<ScalarView>,
    t0: ValueView,
    new_target: Node,
    rv: ValueView,
)
    requires
        engine_inv(s0, pos, origs, f, t0),
        block_len(s0.len() as int, pos, pos.len() - 1) > 0,
        map_leaves(
            f,
            child_at(origs[pos.len() - 1], block_len(s0.len() as int, pos, pos.len() - 1) - 1),
        ) == Some(rv),
        ({
            let old_target = s0[pos[pos.len() - 1]];
            let w = block_len(s0.len() as int, pos, pos.len() - 1) - 1;
            &&& new_target.field_bool_children_in_stack
                == old_target.field_bool_children_in_stack
            &&& new_target.field_parent_key == old_target.field_parent_key
            &&& new_target.field_type == old_target.field_type
            &&& new_target.field_usize_layer == old_target.field_usize_layer
            &&& node_wf(new_target)
            &&& node_content(new_target) == with_child_at(node_content(old_target), w, rv)
        }),
        s2 == s0.drop_last().update(pos[pos.len() - 1], new_target),
    ensures
        engine_inv(s2, pos, origs, f, t0),
{
    let m1 = pos.len() as int;
    let jp = m1 - 1;
    let bl = block_len(s0.len() as int, pos, jp);
    let w = bl - 1;
    let o_p = origs[jp];
    let old_target = s0[pos[jp]];
    assert(open_node_ok(s0, pos, origs, f, jp));
    assert(pos[jp] < s0.len() - 1);
    assert(forall|k: int|
        0 <= k < s0.len() - 1 && k != pos[jp] ==> #[trigger] s2[k] == s0[k]);
    assert(s2[pos[jp]] == new_target);
    assert(s2.len() == s0.len() - 1);
    assert(open_node_ok(s2, pos, origs, f, jp)) by {
        assert(block_len(s2.len() as int, pos, jp) == w);
        assert(unresolved_count(s2.len() as int, pos, jp) == w);
        assert(unresolved_count(s0.len() as int, pos, jp) == bl);
        assert(0 <= w < arity(o_p));
        assert(child_at(node_content(new_target), w) == rv);
        assert forall|i: int| w <= i < arity(o_p) implies map_leaves(f, child_at(o_p, i))
            == Some(child_at(node_content(new_target), i)) by {
            if i > w {
                assert(child_at(node_content(new_target), i) == child_at(
                    node_content(old_target),
                    i,
                ));
            }
        }
        assert forall|i: int|
            0 <= i < block_len(s2.len() as int, pos, jp) implies pending_node_ok(
            s2[pos[jp] + 1 + i],
            jp + 1,
            key_at(o_p, i),
            child_at(o_p, i),
        ) by {
            assert(pos[jp] + 1 + i < s0.len() - 1);
            assert(s2[pos[jp] + 1 + i] == s0[pos[jp] + 1 + i]);
        }
    }
    assert forall|j: int| 0 <= j < pos.len() implies open_node_ok(s2, pos, origs, f, j) by {
        if j < jp {
            assert(open_node_ok(s0, pos, origs, f, j));
            assert(block_len(s2.len() as int, pos, j) == block_len(s0.len() as int, pos, j));
            assert(block_len(s2.len() as int, pos, j) >= 0) by {
                assert(pos[j] < pos[j + 1]);
            }
            assert(unresolved_count(s2.len() as int, pos, j) == unresolved_count(
                s0.len() as int,
                pos,
                j,
            ));
            assert forall|k: int|
                pos[j] <= k < pos[j] + 1 + block_len(s2.len() as int, pos, j) implies (0 <= k
                < s2.len() && k < s0.len() && #[trigger] s2[k] == s0[k]) by {
                lemma_pos_mono(pos, j + 1, jp);
                assert(k < pos[jp]);
            }
            lemma_open_preserved(s0, s2, pos, origs, pos, origs, f, j);
        }
    }
    assert forall|j: int| 1 <= j < pos.len() implies chain_ok(s2, pos, origs, j) by {
        assert(chain_ok(s0, pos, origs, j));
        assert(unresolved_count(s2.len() as int, pos, j - 1) == unresolved_count(
            s0.len() as int,
            pos,
            j - 1,
        ));
        assert(s2[pos[j]].field_parent_key == s0[pos[j]].field_parent_key) by {
            if j < jp {
                lemma_pos_mono(pos, j, jp);
            }
        }
        lemma_chain_preserved(s0, s2, pos, origs, pos, origs, j);
    }
    assert(s2[0].field_parent_key is None) by {
        if jp > 0 {
            lemma_pos_mono(pos, 0, jp);
            assert(pos[jp] > 0);
        }
        assert(s2[0].field_parent_key == s0[0].field_parent_key);
    }
    assert(engine_inv(s2, pos, origs, f, t0));
}

/// The deepest open node collapses: its transform lands in its parent's
/// container and the chain shortens by one.
proof fn lemma_collapse_pop_transition(
    s0: Seq<Node>,
    s2: Seq<Node>,
    pos: Seq<int>,
    origs: Seq<ValueView>,
    f: spec_fn(ScalarView) -> Option<ScalarView>,
    t0: ValueView,
    new_target: Node,
    rv: ValueView,
)
    requires
        engine_inv(s0, pos, origs, f, t0),
        pos.len() >= 2,
        block_len(s0.len() as int, pos, pos.len() - 1) == 0,
        map_leaves(f, origs[pos.len() - 1]) == Some(rv),
        ({
            let jp = pos.len() - 2;
            let old_target = s0[pos[jp]];
            let w = unresolved_count(s0.len() as int, pos, jp) - 1;
            &&& new_target.field_bool_children_in_stack
                == old_target.field_bool_children_in_stack
            &&& new_target.field_parent_key == old_target.field_parent_key
            &&& new_target.field_type == old_target.field_type
            &&& new_target.field_usize_layer == old_target.field_usize_layer
            &&& node_wf(new_target)
            &&& node_content(new_target) == with_child_at(node_content(old_target), w, rv)
        }),
        s2 == s0.drop_last().update(pos[pos.len() - 2], new_target),
    ensures
        engine_inv(s2, pos.drop_last(), origs.drop_last(), f, t0),
{
    let m1 = pos.len() as int;
    let jp = m1 - 2;
    let o_p = origs[jp];
    let old_target = s0[pos[jp]];
    let w = unresolved_count(s0.len() as int, pos, jp) - 1;
    let npos = pos.drop_last();
    let norigs = origs.drop_last();
    assert(open_node_ok(s0, pos, origs, f, jp));
    assert(open_node_ok(s0, pos, origs, f, m1 - 1));
    assert(chain_ok(s0, pos, origs, m1 - 1));
    assert(pos[m1 - 1] == s0.len() - 1);
    assert(pos[jp] < pos[m1 - 1]);
    assert(s2.len() == s0.len() - 1);
    assert(forall|k: int|
        0 <= k < s0.len() - 1 && k != pos[jp] ==> #[trigger] s2[k] == s0[k]);
    assert(s2[pos[jp]] == new_target);
    assert(0 <= w < arity(o_p)) by {
        assert(unresolved_count(s0.len() as int, pos, jp) >= 1);
    }
    assert(map_leaves(f, child_at(o_p, w)) == Some(rv));
    assert(open_node_ok(s2, npos, norigs, f, jp)) by {
        assert(block_len(s2.len() as int, npos, jp) == pos[m1 - 1] - pos[jp] - 1);
        assert(block_len(s0.len() as int, pos, jp) == pos[m1 - 1] - pos[jp] - 1);
        assert(unresolved_count(s2.len() as int, npos, jp) == w);
        assert(unresolved_count(s0.len() as int, pos, jp) == w + 1);
        assert(child_at(node_content(new_target), w) == rv);
        assert forall|i: int| w <= i < arity(o_p) implies map_leaves(f, child_at(o_p, i))
            == Some(child_at(node_content(new_target), i)) by {
            if i > w {
                assert(child_at(node_content(new_target), i) == child_at(
                    node_content(old_target),
                    i,
                ));
            }
        }
        assert forall|i: int|
            0 <= i < block_len(s2.len() as int, npos, jp) implies pending_node_ok(
            s2[npos[jp] + 1 + i],
            jp + 1,
            key_at(o_p, i),
            child_at(o_p, i),
        ) by {
            assert(pos[jp] + 1 + i < pos[m1 - 1]);
            assert(s2[pos[jp] + 1 + i] == s0[pos[jp] + 1 + i]);
        }
    }
    assert forall|j: int| 0 <= j < npos.len() implies open_node_ok(s2, npos, norigs, f, j) by {
        if j < jp {
            assert(open_node_ok(s0, pos, origs, f, j));
            assert(block_len(s2.len() as int, npos, j) == block_len(s0.len() as int, pos, j));
            assert(block_len(s2.len() as int, npos, j) >= 0) by {
                assert(pos[j] < pos[j + 1]);
            }
            assert(unresolved_count(s2.len() as int, npos, j) == unresolved_count(
                s0.len() as int,
                pos,
                j,
            ));
            assert forall|k: int|
                pos[j] <= k < pos[j] + 1 + block_len(s2.len() as int, npos, j) implies (0 <= k
                < s2.len() && k < s0.len() && #[trigger] s2[k] == s0[k]) by {
                lemma_pos_mono(pos, j + 1, jp);
                assert(k < pos[jp]);
            }
            lemma_open_preserved(s0, s2, pos, origs, npos, norigs, f, j);
        }
    }
    assert forall|j: int| 1 <= j < npos.len() implies chain_ok(s2, npos, norigs, j) by {
        assert(chain_ok(s0, pos, origs, j));
        assert(unresolved_count(s2.len() as int, npos, j - 1) == unresolved_count(
            s0.len() as int,
            pos,
            j - 1,
        ));
        assert(s2[npos[j]].field_parent_key == s0[pos[j]].field_parent_key) by {
            if j < jp {
                lemma_pos_mono(pos, j, jp);
            }
        }
        lemma_chain_preserved(s0, s2, pos, origs, npos, norigs, j);
    }
    assert(s2[0].field_parent_key is None) by {
        if jp > 0 {
            lemma_pos_mono(pos, 0, jp);
            assert(pos[jp] > 0);
        }
        assert(s2[0].field_parent_key == s0[0].field_parent_key);
    }
    assert(engine_inv(s2, npos, norigs, f, t0));
}

/// The public entry point: transforms every scalar leaf of `arg_input` with
/// `arg_callback` and reassembles the tree, bottom-up, over an explicit work
/// stack whose depth never reaches the call stack. On every well-formed
/// input whose size a `usize` can count, the walk returns exactly
/// `map_leaves` of the input: the transformed tree, or `CallbackFailed` as
/// soon as the callback fails on some leaf. The remaining error kinds are
/// defensive and proved unreachable on such input.
#[verifier::rlimit(100)]
pub fn get_tree_modified<F: LeafTransform>(arg_input: Value, arg_callback: &F) -> (r: Result<
    Value,
    EngineError,
>)
    ensures
        (well_formed(arg_input@) && tree_size(arg_input@) <= usize::MAX) ==> match map_leaves(
            leaf_spec(*arg_callback),
            arg_input@,
        ) {
            Some(u) => r matches Ok(v) && v@ == u,
            None => r == Err::<Value, EngineError>(EngineError::CallbackFailed),
        },
{
    let ghost t0 = arg_input@;
    let ghost f = leaf_spec(*arg_callback);
    let ghost live = well_formed(t0) && tree_size(t0) <= usize::MAX;
    let mut node_root = Node::new();
    node_root.setup(arg_input, 0, None);
    let mut stack: Vec<Node> = Vec::new();
    stack.push(node_root);
    let ghost mut pos: Seq<int> = seq![0int];
    let ghost mut origs: Seq<ValueView> = seq![t0];
    proof {
        assert(forall|s: ScalarView| #[trigger] f(s) == arg_callback.spec_apply(s));
    }
    loop
        invariant
            t0 == arg_input@,
            f == leaf_spec(*arg_callback),
            live == (well_formed(t0) && tree_size(t0) <= usize::MAX),
            forall|i: int| 0 <= i < stack@.len() ==> node_wf(stack@[i]),
            live ==> ((start_config(stack@, t0) && pos == seq![0int] && origs == seq![t0])
                || engine_inv(stack@, pos, origs, f, t0)),
        decreases stack_measure(stack@),
    {
        let ghost s0 = stack@;
        let popped = stack.pop();
        match popped {
            None => {
                proof {
                    if live {
                        assert(false);
                    }
                }
                return Err(EngineError::StackExhausted);
            },
            Some(mut item_node) => {
                proof {
                    lemma_stack_measure_last(s0);
                }
                if !item_node.field_bool_children_in_stack {
                    // first visit: expand
                    let ghost from_start = live && start_config(s0, t0) && pos == seq![0int]
                        && origs == seq![t0];
                    proof {
                        if live && !from_start {
                            assert(engine_inv(s0, pos, origs, f, t0));
                            let m1 = pos.len() as int;
                            assert(open_node_ok(s0, pos, origs, f, m1 - 1));
                            if pos[m1 - 1] == s0.len() - 1 {
                                assert(s0[pos[m1 - 1]].field_bool_children_in_stack);
                                assert(false);
                            }
                            let bl = block_len(s0.len() as int, pos, m1 - 1);
                            assert(bl >= 1);
                            assert(pos[m1 - 1] + 1 + (bl - 1) == s0.len() - 1);
                            assert(pending_node_ok(
                                s0[s0.len() - 1],
                                m1,
                                key_at(origs[m1 - 1], bl - 1),
                                child_at(origs[m1 - 1], bl - 1),
                            ));
                            assert(item_node == s0[s0.len() - 1]);
                            // the layer to expand at stays within the input's size
                            assert(0 <= bl - 1 < arity(origs[m1 - 1])) by {
                                assert(unresolved_count(s0.len() as int, pos, m1 - 1) >= bl);
                            }
                            lemma_child_size_lt(origs[m1 - 1], bl - 1);
                            assert(m1 - 1 + tree_size(origs[m1 - 1]) <= tree_size(t0));
                            assert(item_node.field_usize_layer == m1);
                            assert(m1 < tree_size(t0));
                        }
                        if from_start {
                            assert(item_node == s0[0]);
                            assert(!(t0 is Scalar));
                            assert(item_node.field_usize_layer == 0);
                        }
                    }
                    if item_node.field_usize_layer == usize::MAX {
                        // a tree deeper than usize can count: treat as the internal
                        // invariant violation it would become
                        proof {
                            if live {
                                assert(false);
                            }
                        }
                        return Err(EngineError::StackExhausted);
                    }
                    let ghost content0 = node_content(item_node);
                    item_node.field_bool_children_in_stack = true;
                    let mut vec_of_children = item_node.get_vec_of_node_children();
                    let ghost expanded_node = item_node;
                    let ghost ch = vec_of_children@;
                    stack.push(item_node);
                    stack.append(&mut vec_of_children);
                    proof {
                        let mid = s0.drop_last().push(expanded_node);
                        lemma_stack_measure_concat(mid, ch);
                        lemma_stack_measure_last(mid);
                        assert(mid.drop_last() =~= s0.drop_last());
                        lemma_pending_children_measure(
                            ch,
                            content0,
                            expanded_node.field_usize_layer + 1,
                            0,
                        );
                        assert(tree_size(content0) == 1 + child_sizes_from(content0, 0));
                        if content0 is Scalar {
                            assert(node_weight(expanded_node) == 2);
                            assert(child_sizes_from(content0, 0) == 0);
                        } else {
                            assert(node_weight(expanded_node) == 1);
                        }
                        assert(stack_measure(stack@) < stack_measure(s0));
                        if live {
                            let s2 = stack@;
                            assert(s2 =~= s0.drop_last() + seq![expanded_node] + ch);
                            if from_start {
                                lemma_expand_start(s0, s2, f, t0, expanded_node, ch);
                            } else {
                                lemma_expand_transition(s0, s2, pos, origs, f, t0, expanded_node, ch);
                                pos = pos.push(s0.len() - 1);
                                origs = origs.push(content0);
                            }
                        }
                    }
                } else {
                    // second visit: collapse
                    let ghost popped_node = item_node;
                    let ghost m1 = pos.len() as int;
                    let ghost bl = block_len(s0.len() as int, pos, m1 - 1);
                    let ghost is_leaf = bl > 0;
                    let ghost sub = if bl > 0 {
                        child_at(origs[m1 - 1], bl - 1)
                    } else {
                        origs[m1 - 1]
                    };
                    proof {
                        if live {
                            if start_config(s0, t0) && pos == seq![0int] && origs == seq![t0] {
                                assert(item_node == s0[0]);
                                assert(t0 is Scalar);
                                assert(open_node_ok(s0, pos, origs, f, 0)) by {
                                    assert(unresolved_count(s0.len() as int, pos, 0) == 0);
                                    assert(arity(t0) == 0);
                                }
                                assert(engine_inv(s0, pos, origs, f, t0));
                            }
                            assert(engine_inv(s0, pos, origs, f, t0));
                            assert(open_node_ok(s0, pos, origs, f, m1 - 1));
                            if is_leaf {
                                assert(pos[m1 - 1] + 1 + (bl - 1) == s0.len() - 1);
                                assert(pending_node_ok(
                                    popped_node,
                                    m1,
                                    key_at(origs[m1 - 1], bl - 1),
                                    sub,
                                ));
                                assert(sub is Scalar);
                                assert(0 <= bl - 1 < arity(origs[m1 - 1])) by {
                                    assert(unresolved_count(s0.len() as int, pos, m1 - 1) >= bl);
                                }
                            } else {
                                assert(pos[m1 - 1] == s0.len() - 1);
                                assert(popped_node == s0[pos[m1 - 1]]);
                            }
                        }
                    }
                    let parent_key = item_node.field_parent_key.take();
                    let layer = item_node.field_usize_layer;
                    let has_kids = item_node.logic_has_children();
                    let value0 = match item_node.get_value() {
                        Ok(v) => v,
                        Err(e) => {
                            proof {
                                if live {
                                    assert(node_wf(popped_node));
                                    assert(false);
                                }
                            }
                            return Err(e);
                        },
                    };
                    let resolved: Value = if has_kids {
                        value0
                    } else {
                        match value0 {
                            Value::Scalar(sc) => {
                                match get_value_returned_from_callback(&sc, arg_callback) {
                                    Ok(out) => Value::Scalar(out),
                                    Err(e) => {
                                        proof {
                                            if live {
                                                // the callback failed on this leaf, so the
                                                // whole transform fails
                                                assert(arg_callback.spec_apply(sc@) is None);
                                                assert(value0@ == node_content(popped_node));
                                                assert(node_content(popped_node) == sub);
                                                assert(sub == ValueView::Scalar(sc@));
                                                assert(f(sc@) is None);
                                                assert(map_leaves(f, sub) is None);
                                                if is_leaf {
                                                    lemma_child_failure(f, origs[m1 - 1], bl - 1);
                                                }
                                                assert(map_leaves(f, origs[m1 - 1]) is None);
                                                lemma_failure_transition(s0, pos, origs, f, t0);
                                                assert(map_leaves(f, t0) is None);
                                            }
                                        }
                                        return Err(e);
                                    },
                                }
                            },
                            other => other,
                        }
                    };
                    proof {
                        if live {
                            // the resolved value is exactly the transform of the popped
                            // node's whole original subtree
                            if sub is Scalar {
                                assert(node_content(popped_node) == sub);
                                assert(!has_kids);
                                assert(map_leaves(f, sub) == Some(resolved@));
                            } else {
                                assert(!is_leaf);
                                assert(has_kids);
                                assert(resolved == value0);
                                assert(value0@ == node_content(popped_node));
                                assert(unresolved_count(s0.len() as int, pos, m1 - 1) == 0);
                                lemma_map_leaves_assembled(f, sub, node_content(popped_node));
                                assert(map_leaves(f, sub) == Some(resolved@));
                            }
                        }
                    }
                    match parent_key {
                        Some(key) => {
                            let ghost jp: int = if is_leaf {
                                m1 - 1
                            } else {
                                m1 - 2
                            };
                            let ghost w = unresolved_count(s0.len() as int, pos, jp) - 1;
                            proof {
                                if live {
                                    if is_leaf {
                                        assert(layer == m1);
                                        assert(w == bl - 1);
                                        assert(key_view(key) == key_at(origs[jp], w));
                                    } else {
                                        assert(layer == m1 - 1);
                                        if m1 == 1 {
                                            assert(popped_node.field_parent_key is None);
                                            assert(false);
                                        }
                                        assert(chain_ok(s0, pos, origs, m1 - 1));
                                        assert(sub == child_at(origs[jp], w));
                                        assert(key_view(key) == key_at(origs[jp], w));
                                    }
                                    assert(0 <= jp < pos.len());
                                    assert(jp == layer - 1);
                                    assert(layer >= 1);
                                    assert(open_node_ok(s0, pos, origs, f, jp));
                                    assert(0 <= w < arity(origs[jp])) by {
                                        if !is_leaf {
                                            assert(unresolved_count(s0.len() as int, pos, jp)
                                                >= 1);
                                        }
                                    }
                                    assert(map_leaves(f, child_at(origs[jp], w)) == Some(
                                        resolved@,
                                    ));
                                }
                            }
                            if layer == 0 {
                                // no stack slot can sit above the root's layer
                                proof {
                                    if live {
                                        assert(false);
                                    }
                                }
                                return Err(EngineError::OrphanedNode);
                            }
                            let target_layer = layer - 1;
                            let ghost s1 = stack@;
                            proof {
                                if live {
                                    assert(s1 =~= s0.drop_last());
                                    lemma_no_match_above(s0, pos, origs, f, jp);
                                    if is_leaf {
                                        assert(pos[jp] < s1.len());
                                    } else {
                                        lemma_pos_mono(pos, jp, m1 - 1);
                                        assert(pos[jp] < pos[m1 - 1]);
                                        assert(pos[jp] < s1.len());
                                    }
                                    assert(s1[pos[jp]] == s0[pos[jp]]);
                                    assert(s1[pos[jp]].field_usize_layer == jp
                                        && s1[pos[jp]].field_bool_children_in_stack);
                                }
                            }
                            let mut probe = stack.len();
                            let mut found: bool = false;
                            let mut found_at: usize = 0;
                            while probe > 0
                                invariant
                                    stack@ == s1,
                                    probe <= s1.len(),
                                    !found ==> forall|k: int|
                                        probe <= k < s1.len() ==> !(s1[k].field_usize_layer
                                            == target_layer
                                            && s1[k].field_bool_children_in_stack),
                                    found ==> found_at < s1.len() && s1[found_at as int].field_usize_layer
                                        == target_layer
                                        && s1[found_at as int].field_bool_children_in_stack && (
                                    forall|k: int|
                                        found_at < k < s1.len() ==> !(s1[k].field_usize_layer
                                            == target_layer
                                            && s1[k].field_bool_children_in_stack)),
                                decreases probe,
                            {
                                probe = probe - 1;
                                if !found {
                                    let candidate = &stack[probe];
                                    if candidate.field_usize_layer == target_layer
                                        && candidate.field_bool_children_in_stack {
                                        found = true;
                                        found_at = probe;
                                    }
                                }
                            }
                            if !found {
                                proof {
                                    if live {
                                        assert(false);
                                    }
                                }
                                return Err(EngineError::OrphanedNode);
                            }
                            proof {
                                if live {
                                    // the first match from the top is the parent level's
                                    // open node
                                    if found_at as int != pos[jp] {
                                        assert(false);
                                    }
                                }
                            }
                            let ghost old_target = stack@[found_at as int];
                            let ghost o_p = origs[jp];
                            let ghost cur = node_content(old_target);
                            let write_result = stack[found_at].set_value_at_key(&key, resolved);
                            let ghost new_target = stack@[found_at as int];
                            proof {
                                if live {
                                    // the write lands exactly on child w of the parent's
                                    // container
                                    assert(old_target == s0[pos[jp]]);
                                    assert(node_wf(old_target));
                                    assert(key_view(key) == key_at(cur, w)) by {
                                        assert(object_key_at(cur, w) == object_key_at(o_p, w));
                                    }
                                    assert(distinct_keys(cur)) by {
                                        if cur is Object {
                                            let es = cur->Object_0;
                                            assert forall|a: int, b: int|
                                                0 <= a < b < es.len() implies es[a].0 != es[b].0 by {
                                                assert(es[a].0 == object_key_at(cur, a));
                                                assert(es[b].0 == object_key_at(cur, b));
                                                assert(object_key_at(cur, a) == object_key_at(
                                                    o_p,
                                                    a,
                                                ));
                                                assert(object_key_at(cur, b) == object_key_at(
                                                    o_p,
                                                    b,
                                                ));
                                                assert(o_p is Object);
                                                let os = o_p->Object_0;
                                                assert(os[a].0 != os[b].0);
                                            }
                                        }
                                    }
                                    assert(write_result is Ok && node_content(new_target)
                                        == with_child_at(cur, w, resolved@));
                                }
                            }
                            match write_result {
                                Ok(()) => {},
                                Err(e) => {
                                    proof {
                                        if live {
                                            assert(false);
                                        }
                                    }
                                    return Err(e);
                                },
                            }
                            proof {
                                assert(stack@ == s1.update(found_at as int, new_target));
                                lemma_stack_measure_update(s1, found_at as int, new_target);
                                assert(node_weight(new_target) == node_weight(old_target));
                                assert(stack_measure(stack@) < stack_measure(s0));
                                if live {
                                    let s2 = stack@;
                                    assert(s2 =~= s0.drop_last().update(pos[jp], new_target));
                                    if is_leaf {
                                        lemma_collapse_leaf_transition(
                                            s0, s2, pos, origs, f, t0, new_target, resolved@,
                                        );
                                    } else {
                                        lemma_collapse_pop_transition(
                                            s0, s2, pos, origs, f, t0, new_target, resolved@,
                                        );
                                        pos = pos.drop_last();
                                        origs = origs.drop_last();
                                    }
                                    assert(engine_inv(stack@, pos, origs, f, t0));
                                }
                            }
                        },
                        None => {
                            proof {
                                if live {
                                    // only the root carries no write-back key
                                    if is_leaf {
                                        assert(false);
                                    }
                                    if m1 > 1 {
                                        assert(chain_ok(s0, pos, origs, m1 - 1));
                                        assert(false);
                                    }
                                    assert(sub == t0);
                                    assert(map_leaves(f, t0) == Some(resolved@));
                                }
                            }
                            return Ok(resolved);
                        },
                    }
                }
            },
        }
    }
}



} // verus!
