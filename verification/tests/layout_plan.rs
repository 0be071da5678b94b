use byte_engine::context::{slot_path, ElementKey};
use byte_engine::layout_plan::{layout_plan, uncovered_transform_roots, LayoutPlan, RetainedRevisions};
use byte_engine::retained_tree::{RetainedTree, Revisions, ROOT_PATH};

fn revisions(revision: u64, placement: u64, non_transform: u64) -> Revisions {
    Revisions { revision, placement, non_transform, flow: 0, clip: 0, appearance: 0 }
}

#[test]
fn unchanged_tree_keeps_layout_and_changed_inputs_choose_how_much_to_redo() {
    let retained = RetainedRevisions { tree: 5, placement: 3, non_transform: 4, has_custom_flows: false };
    assert_eq!(layout_plan(None, revisions(5, 3, 4), true, true, false), LayoutPlan::Relayout);
    assert_eq!(layout_plan(Some(retained), revisions(5, 3, 4), true, true, false), LayoutPlan::Unchanged);
    // A paint edit advances the tree revision only.
    assert_eq!(layout_plan(Some(retained), revisions(6, 3, 6), true, true, false), LayoutPlan::ReusePlacement);
    assert_eq!(layout_plan(Some(retained), revisions(6, 3, 6), true, true, true), LayoutPlan::UpdateTransforms);
    // A resize, a placement edit, or a text that measures differently places everything again.
    assert_eq!(layout_plan(Some(retained), revisions(5, 3, 4), false, true, false), LayoutPlan::Relayout);
    assert_eq!(layout_plan(Some(retained), revisions(6, 6, 6), true, true, false), LayoutPlan::Relayout);
    assert_eq!(layout_plan(Some(retained), revisions(6, 3, 6), true, false, false), LayoutPlan::Relayout);
}

#[test]
fn custom_flow_observes_captured_state_after_a_paint_update() {
    let retained = RetainedRevisions { tree: 5, placement: 3, non_transform: 4, has_custom_flows: true };
    // An edit other than a transform may change what a custom flow reads, so placement runs again.
    assert_eq!(layout_plan(Some(retained), revisions(6, 3, 6), true, true, false), LayoutPlan::Relayout);
    // A transform-only edit leaves what custom flows observe alone.
    assert_eq!(layout_plan(Some(retained), revisions(6, 3, 4), true, true, true), LayoutPlan::UpdateTransforms);
}

#[test]
fn transform_edits_refresh_appearance_inside_the_moved_subtree_only() {
    let mut tree = RetainedTree::new();
    let root = slot_path(ROOT_PATH, ElementKey::from("root"));
    let panel = slot_path(root, ElementKey::from("panel"));
    let icon = slot_path(panel, ElementKey::from("icon"));
    let label = slot_path(root, ElementKey::from("label"));
    for (parent, id) in [(None, root), (Some(root), panel), (Some(panel), icon), (Some(root), label)] {
        tree.add_element(parent, parent.unwrap_or(ROOT_PATH), id, |_| ());
    }
    // The icon moved inside the moved panel: the panel's update covers it.
    assert_eq!(uncovered_transform_roots(&tree, &[2, 1]), [1]);
    assert_eq!(uncovered_transform_roots(&tree, &[2, 3]), [2, 3]);
    assert_eq!(uncovered_transform_roots(&tree, &[0, 2, 3]), [0]);
    assert!(uncovered_transform_roots(&tree, &[]).is_empty());
    assert!(tree.ancestor_among(2, &[0]));
    assert!(!tree.ancestor_among(2, &[2, 3]));
}
