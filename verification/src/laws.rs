//! Laws of the transform, stated and proved over `map_leaves`.

use vstd::prelude::*;

use crate::value::{
    has_failing_leaf, leafless, map_children, map_entries, map_leaves, ScalarView, ValueView,
};

verus! {

/// Identity law, per child sequence.
pub proof fn lemma_identity_children(f: spec_fn(ScalarView) -> Option<ScalarView>, cs: Seq<ValueView>)
    requires
        forall|s: ScalarView| #[trigger] f(s) == Some(s),
    ensures
        map_children(f, cs) == Some(cs),
    decreases cs,
{
    if cs.len() == 0 {
        assert(cs =~= Seq::<ValueView>::empty());
    } else {
        lemma_identity(f, cs[0]);
        lemma_identity_children(f, cs.subrange(1, cs.len() as int));
        assert(seq![cs[0]] + cs.subrange(1, cs.len() as int) =~= cs);
    }
}

/// Identity law, per map entry sequence.
pub proof fn lemma_identity_entries(
    f: spec_fn(ScalarView) -> Option<ScalarView>,
    es: Seq<(Seq<char>, ValueView)>,
)
    requires
        forall|s: ScalarView| #[trigger] f(s) == Some(s),
    ensures
        map_entries(f, es) == Some(es),
    decreases es,
{
    if es.len() == 0 {
        assert(es =~= Seq::<(Seq<char>, ValueView)>::empty());
    } else {
        lemma_identity(f, es[0].1);
        lemma_identity_entries(f, es.subrange(1, es.len() as int));
        assert(seq![(es[0].0, es[0].1)] + es.subrange(1, es.len() as int) =~= es);
        assert((es[0].0, es[0].1) == es[0]);
    }
}

/// Idempotence under an identity leaf function: the transform returns the
/// tree unchanged, for every tree.
pub proof fn lemma_identity(f: spec_fn(ScalarView) -> Option<ScalarView>, t: ValueView)
    requires
        forall|s: ScalarView| #[trigger] f(s) == Some(s),
    ensures
        map_leaves(f, t) == Some(t),
    decreases t,
{
    match t {
        ValueView::Scalar(_) => {},
        ValueView::Array(cs) => {
            lemma_identity_children(f, cs);
        },
        ValueView::Object(es) => {
            lemma_identity_entries(f, es);
        },
    }
}

proof fn lemma_leafless_children(f: spec_fn(ScalarView) -> Option<ScalarView>, cs: Seq<ValueView>)
    requires
        forall|i: int| #![auto] 0 <= i < cs.len() ==> leafless(cs[i]),
    ensures
        map_children(f, cs) == Some(cs),
    decreases cs,
{
    if cs.len() == 0 {
        assert(cs =~= Seq::<ValueView>::empty());
    } else {
        lemma_leafless(f, cs[0]);
        lemma_leafless_children(f, cs.subrange(1, cs.len() as int));
        assert(seq![cs[0]] + cs.subrange(1, cs.len() as int) =~= cs);
    }
}

proof fn lemma_leafless_entries(
    f: spec_fn(ScalarView) -> Option<ScalarView>,
    es: Seq<(Seq<char>, ValueView)>,
)
    requires
        forall|i: int| #![auto] 0 <= i < es.len() ==> leafless(es[i].1),
    ensures
        map_entries(f, es) == Some(es),
    decreases es,
{
    if es.len() == 0 {
        assert(es =~= Seq::<(Seq<char>, ValueView)>::empty());
    } else {
        lemma_leafless(f, es[0].1);
        lemma_leafless_entries(f, es.subrange(1, es.len() as int));
        assert(seq![(es[0].0, es[0].1)] + es.subrange(1, es.len() as int) =~= es);
        assert((es[0].0, es[0].1) == es[0]);
    }
}

/// Structure preservation: a tree with no scalar leaf transforms to itself,
/// whatever the leaf function.
pub proof fn lemma_leafless(f: spec_fn(ScalarView) -> Option<ScalarView>, t: ValueView)
    requires
        leafless(t),
    ensures
        map_leaves(f, t) == Some(t),
    decreases t,
{
    match t {
        ValueView::Scalar(_) => {},
        ValueView::Array(cs) => {
            lemma_leafless_children(f, cs);
        },
        ValueView::Object(es) => {
            lemma_leafless_entries(f, es);
        },
    }
}

/// Order preservation: when a sequence transforms, output index `i` holds
/// exactly the transform of input index `i`, for every `i`.
pub proof fn lemma_children_entrywise(
    f: spec_fn(ScalarView) -> Option<ScalarView>,
    cs: Seq<ValueView>,
    us: Seq<ValueView>,
)
    requires
        map_children(f, cs) == Some(us),
    ensures
        us.len() == cs.len(),
        forall|i: int| #![auto] 0 <= i < cs.len() ==> map_leaves(f, cs[i]) == Some(us[i]),
    decreases cs,
{
    if cs.len() > 0 {
        let tail = cs.subrange(1, cs.len() as int);
        let h = map_leaves(f, cs[0])->Some_0;
        let rest = map_children(f, tail)->Some_0;
        assert(us == seq![h] + rest);
        lemma_children_entrywise(f, tail, rest);
        assert forall|i: int| 0 <= i < cs.len() implies #[trigger] map_leaves(f, cs[i]) == Some(
            us[i],
        ) by {
            if i > 0 {
                assert(tail[i - 1] == cs[i]);
                assert(us[i] == rest[i - 1]);
            }
        }
    }
}

/// Leaf application completeness per map level: keys are kept and each
/// entry's value is exactly the transform of the original entry's value.
pub proof fn lemma_entries_entrywise(
    f: spec_fn(ScalarView) -> Option<ScalarView>,
    es: Seq<(Seq<char>, ValueView)>,
    us: Seq<(Seq<char>, ValueView)>,
)
    requires
        map_entries(f, es) == Some(us),
    ensures
        us.len() == es.len(),
        forall|i: int| #![auto] 0 <= i < es.len() ==> us[i].0 == es[i].0,
        forall|i: int| #![auto] 0 <= i < es.len() ==> map_leaves(f, es[i].1) == Some(us[i].1),
    decreases es,
{
    if es.len() > 0 {
        let tail = es.subrange(1, es.len() as int);
        let h = map_leaves(f, es[0].1)->Some_0;
        let rest = map_entries(f, tail)->Some_0;
        assert(us == seq![(es[0].0, h)] + rest);
        lemma_entries_entrywise(f, tail, rest);
        assert forall|i: int| 0 <= i < es.len() implies #[trigger] us[i].0 == es[i].0
            && map_leaves(f, es[i].1) == Some(us[i].1) by {
            if i > 0 {
                assert(tail[i - 1] == es[i]);
                assert(us[i] == rest[i - 1]);
            }
        }
    }
}

proof fn lemma_failure_children(f: spec_fn(ScalarView) -> Option<ScalarView>, cs: Seq<ValueView>)
    ensures
        (map_children(f, cs) is None) == (exists|i: int|
            #![auto]
            0 <= i < cs.len() && has_failing_leaf(f, cs[i])),
    decreases cs,
{
    if cs.len() > 0 {
        let tail = cs.subrange(1, cs.len() as int);
        lemma_failure(f, cs[0]);
        lemma_failure_children(f, tail);
        if map_children(f, cs) is None {
            if has_failing_leaf(f, cs[0]) {
                assert(0 <= 0 < cs.len() && has_failing_leaf(f, cs[0]));
            } else {
                let j = choose|j: int| #![auto] 0 <= j < tail.len() && has_failing_leaf(f, tail[j]);
                assert(cs[j + 1] == tail[j]);
            }
        } else {
            assert forall|i: int| 0 <= i < cs.len() implies !has_failing_leaf(f, cs[i]) by {
                if i > 0 {
                    assert(tail[i - 1] == cs[i]);
                }
            }
        }
    }
}

proof fn lemma_failure_entries(
    f: spec_fn(ScalarView) -> Option<ScalarView>,
    es: Seq<(Seq<char>, ValueView)>,
)
    ensures
        (map_entries(f, es) is None) == (exists|i: int|
            #![auto]
            0 <= i < es.len() && has_failing_leaf(f, es[i].1)),
    decreases es,
{
    if es.len() > 0 {
        let tail = es.subrange(1, es.len() as int);
        lemma_failure(f, es[0].1);
        lemma_failure_entries(f, tail);
        if map_entries(f, es) is None {
            if has_failing_leaf(f, es[0].1) {
                assert(0 <= 0 < es.len() && has_failing_leaf(f, es[0].1));
            } else {
                let j = choose|j: int|
                    #![auto]
                    0 <= j < tail.len() && has_failing_leaf(f, tail[j].1);
                assert(es[j + 1] == tail[j]);
            }
        } else {
            assert forall|i: int| 0 <= i < es.len() implies !has_failing_leaf(f, es[i].1) by {
                if i > 0 {
                    assert(tail[i - 1] == es[i]);
                }
            }
        }
    }
}

/// Failure propagation: the transform fails exactly when the leaf function
/// fails on some leaf of the tree; there is no partial result.
pub proof fn lemma_failure(f: spec_fn(ScalarView) -> Option<ScalarView>, t: ValueView)
    ensures
        (map_leaves(f, t) is None) == has_failing_leaf(f, t),
    decreases t,
{
    match t {
        ValueView::Scalar(_) => {},
        ValueView::Array(cs) => {
            lemma_failure_children(f, cs);
        },
        ValueView::Object(es) => {
            lemma_failure_entries(f, es);
        },
    }
}

} // verus!
