//! How much of the retained layout an evaluation can reuse.
//!
//! Layout is the expensive part of an evaluation. The tree's revision counters tell which inputs of the last layout
//! changed since it was computed, so an evaluation keeps the whole layout when nothing changed, reuses the placement
//! of every element when only paint or visual transforms changed, and places elements again otherwise.
use vstd::prelude::*;

use crate::retained_tree::{RetainedTree, Revisions};
use crate::runtime::kept_events;

verus! {

/// The `RetainedRevisions` struct holds the tree revisions the retained layout was computed from.
#[derive(Clone, Copy, Debug, PartialEq, Eq, Structural)]
pub struct RetainedRevisions {
    pub tree: u64,
    pub placement: u64,
    pub non_transform: u64,
    /// Whether some container lays out its children with a flow of its own, whose placement may depend on state
    /// outside the tree.
    pub has_custom_flows: bool,
}

/// The `LayoutPlan` enum says how an evaluation produces its layout.
#[derive(Clone, Copy, Debug, PartialEq, Eq, Structural)]
pub enum LayoutPlan {
    /// Nothing the layout depends on changed: the retained layout stands as it is.
    Unchanged,
    /// Placement is unchanged: every retained element is reused.
    ReusePlacement,
    /// Placement is unchanged but visual transforms changed: only the transformed subtrees are updated, from the
    /// retained placement.
    UpdateTransforms,
    /// Elements are placed again.
    Relayout,
}

/// Whether the retained placement still holds: no change that may move or resize an element, no change a custom
/// flow may observe, the same viewport, and every edited text measuring as before.
pub open spec fn placement_reusable(
    retained: RetainedRevisions,
    current: Revisions,
    same_size: bool,
    text_unchanged: bool,
) -> bool {
    &&& retained.placement == current.placement
    &&& !retained.has_custom_flows || retained.non_transform == current.non_transform
    &&& same_size
    &&& text_unchanged
}

/// How an evaluation produces its layout: `retained` is what the last layout was computed from, if there is one,
/// `same_size` whether the viewport kept its size, `text_unchanged` whether every edited text measures as before, and
/// `transforms_changed` whether a visual transform changed.
pub open spec fn plan_for(
    retained: Option<RetainedRevisions>,
    current: Revisions,
    same_size: bool,
    text_unchanged: bool,
    transforms_changed: bool,
) -> LayoutPlan {
    match retained {
        Some(r) => if r.tree == current.revision && same_size {
            LayoutPlan::Unchanged
        } else if placement_reusable(r, current, same_size, text_unchanged) {
            if transforms_changed {
                LayoutPlan::UpdateTransforms
            } else {
                LayoutPlan::ReusePlacement
            }
        } else {
            LayoutPlan::Relayout
        },
        None => LayoutPlan::Relayout,
    }
}

/// Decides how an evaluation produces its layout; see [`plan_for`].
pub fn layout_plan(
    retained: Option<RetainedRevisions>,
    current: Revisions,
    same_size: bool,
    text_unchanged: bool,
    transforms_changed: bool,
) -> (r: LayoutPlan)
    ensures
        r == plan_for(retained, current, same_size, text_unchanged, transforms_changed),
{
    match retained {
        Some(r) => {
            if r.tree == current.revision && same_size {
                LayoutPlan::Unchanged
            } else if r.placement == current.placement && (!r.has_custom_flows || r.non_transform == current.non_transform)
                && same_size && text_unchanged {
                if transforms_changed {
                    LayoutPlan::UpdateTransforms
                } else {
                    LayoutPlan::ReusePlacement
                }
            } else {
                LayoutPlan::Relayout
            }
        },
        None => LayoutPlan::Relayout,
    }
}

/// The transformed elements whose subtree an update covers: those without a proper ancestor among `changed`, in
/// order. An edited ancestor owns its whole subtree, including edited elements nested inside it.
pub open spec fn transform_roots<P>(tree: &RetainedTree<P>, changed: Seq<usize>) -> Seq<usize> {
    kept_events(changed, |index: usize| !tree.has_ancestor_among(index as int, changed))
}

/// Returns the transformed elements whose subtrees an update recomputes; see [`transform_roots`].
pub fn uncovered_transform_roots<P>(tree: &RetainedTree<P>, changed: &[usize]) -> (r: Vec<usize>)
    requires
        tree.wf(),
        forall|k: int| 0 <= k < changed@.len() ==> changed@[k] < tree.elements_view().len(),
    ensures
        r@ == transform_roots(tree, changed@),
{
    let ghost keep = |index: usize| !tree.has_ancestor_among(index as int, changed@);
    let mut roots: Vec<usize> = Vec::new();
    let mut i: usize = 0;
    while i < changed.len()
        invariant
            i <= changed@.len(),
            tree.wf(),
            forall|k: int| 0 <= k < changed@.len() ==> changed@[k] < tree.elements_view().len(),
            keep == (|index: usize| !tree.has_ancestor_among(index as int, changed@)),
            roots@ == kept_events(changed@.take(i as int), keep),
        decreases changed@.len() - i,
    {
        let index = changed[i];
        proof {
            assert(changed@.take(i + 1).drop_last() =~= changed@.take(i as int));
            assert(changed@.take(i + 1).last() == index);
        }
        if !tree.ancestor_among(index, changed) {
            roots.push(index);
        }
        i = i + 1;
    }
    proof {
        assert(changed@.take(changed@.len() as int) =~= changed@);
    }
    roots
}

/// Every element `kept_events` keeps passes its test, and every element it drops fails it.
proof fn lemma_kept_exactly<E>(events: Seq<E>, keep: spec_fn(E) -> bool)
    ensures
        forall|k: int| 0 <= k < kept_events(events, keep).len() ==> keep(#[trigger] kept_events(events, keep)[k]),
        forall|k: int|
            0 <= k < events.len() && keep(#[trigger] events[k]) ==> kept_events(events, keep).contains(events[k]),
    decreases events.len(),
{
    if events.len() > 0 {
        let rest = events.drop_last();
        lemma_kept_exactly(rest, keep);
        let kept = kept_events(events, keep);
        let kept_rest = kept_events(rest, keep);
        assert forall|k: int| 0 <= k < kept.len() implies keep(#[trigger] kept[k]) by {
            if k < kept_rest.len() {
                assert(kept[k] == kept_rest[k]);
            }
        }
        assert forall|k: int| 0 <= k < events.len() && keep(#[trigger] events[k]) implies kept.contains(events[k]) by {
            if k < rest.len() {
                assert(rest[k] == events[k]);
                let w = choose|w: int| 0 <= w < kept_rest.len() && kept_rest[w] == rest[k];
                assert(kept[w] == kept_rest[w]);
            } else {
                assert(kept[kept.len() - 1] == events.last());
            }
        }
    }
}

/// An update of transformed subtrees covers each changed element exactly once: every changed element is one of the
/// roots it recomputes or lies under a changed proper ancestor, and no root lies under another changed element.
pub proof fn every_transform_change_is_covered_once<P>(tree: &RetainedTree<P>, changed: Seq<usize>, k: int)
    requires
        0 <= k < changed.len(),
    ensures
        transform_roots(tree, changed).contains(changed[k]) || tree.has_ancestor_among(changed[k] as int, changed),
        forall|r: int|
            0 <= r < transform_roots(tree, changed).len() ==> !tree.has_ancestor_among(
                #[trigger] transform_roots(tree, changed)[r] as int,
                changed,
            ),
{
    let keep = |index: usize| !tree.has_ancestor_among(index as int, changed);
    lemma_kept_exactly(changed, keep);
    if !tree.has_ancestor_among(changed[k] as int, changed) {
        assert(keep(changed[k]));
    }
    assert forall|r: int| 0 <= r < transform_roots(tree, changed).len() implies !tree.has_ancestor_among(
        #[trigger] transform_roots(tree, changed)[r] as int,
        changed,
    ) by {
        assert(keep(transform_roots(tree, changed)[r]));
    }
}

/// Nothing changed means nothing to recompute: a layout retained from the current tree revision at the same viewport
/// size stands, whatever else is reported.
pub proof fn an_unchanged_tree_keeps_its_layout(
    retained: RetainedRevisions,
    current: Revisions,
    text_unchanged: bool,
    transforms_changed: bool,
)
    requires
        retained.tree == current.revision,
    ensures
        plan_for(Some(retained), current, true, text_unchanged, transforms_changed) == LayoutPlan::Unchanged,
        plan_for(None, current, true, text_unchanged, transforms_changed) == LayoutPlan::Relayout,
{
}

} // verus!
