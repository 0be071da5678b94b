use byte_engine::primitive::RenderRevision;
use byte_engine::render_plan::{
    depth_order, depth_slot, patch_visible, render_plan, reuse_render, surface_ids, LayoutSource, RenderCounter, RenderPlan, RenderedFrom,
};
use byte_engine::retained_tree::Revisions;

fn revisions(revision: u64, placement: u64, clip: u64, appearance: u64) -> Revisions {
    Revisions { revision, placement, non_transform: revision, flow: 0, clip, appearance }
}

fn rendered() -> RenderedFrom {
    RenderedFrom { tree: 9, placement: 4, clip: 5, appearance: 6, layout: 2, render: RenderRevision(11) }
}

#[test]
fn unchanged_tree_keeps_layout_and_render_revision_across_frames() {
    assert!(reuse_render(Some(rendered()), 9, 2, true));
    assert!(!reuse_render(Some(rendered()), 10, 2, true));
    assert!(!reuse_render(Some(rendered()), 9, 3, true));
    assert!(!reuse_render(Some(rendered()), 9, 2, false));
    assert!(!reuse_render(None, 9, 2, true));
}

#[test]
fn a_transform_only_change_patches_the_moved_subtrees() {
    let layout = LayoutSource { revision: 3, transformed_from: Some(2) };
    let plan = render_plan(Some(rendered()), revisions(10, 4, 5, 6), layout, true, true, 2, 100);
    assert_eq!(
        plan,
        RenderPlan { visibility_unchanged: false, incremental: true, damage_base: Some(RenderRevision(11)), placement_unchanged: true }
    );
    // Once a quarter of the tree moved, the render is written again.
    let plan = render_plan(Some(rendered()), revisions(10, 4, 5, 6), layout, true, true, 25, 100);
    assert!(!plan.incremental);
    // An appearance edit also writes everything again.
    let plan = render_plan(Some(rendered()), revisions(10, 4, 5, 7), layout, true, true, 2, 100);
    assert!(!plan.incremental);
}

#[test]
fn first_render_and_viewport_change_damage_everything() {
    let layout = LayoutSource { revision: 2, transformed_from: None };
    let first = render_plan(None, revisions(1, 1, 1, 1), layout, true, true, 0, 3);
    assert_eq!(first.damage_base, None);
    assert!(!first.visibility_unchanged && !first.placement_unchanged);
    let resized = render_plan(Some(rendered()), revisions(9, 4, 5, 6), layout, false, true, 0, 3);
    assert_eq!(resized.damage_base, None);
    assert!(!resized.visibility_unchanged);
    let same = render_plan(Some(rendered()), revisions(10, 4, 5, 6), layout, true, true, 0, 3);
    assert!(same.visibility_unchanged);
    assert_eq!(same.damage_base, Some(RenderRevision(11)));
}

#[test]
fn render_orders_elements_by_resolved_depth() {
    // (depth, layout position): a modal at depth 3 declared first draws above the later elements at depth 1 and 2.
    let order = depth_order(&[(3, 0), (1, 1), (2, 2), (1, 3)]);
    assert_eq!(order, [(1, 1), (1, 3), (2, 2), (3, 0)]);
    assert!(depth_order(&[]).is_empty());
    assert_eq!(depth_order(&[(0, 5), (0, 5)]), [(0, 5), (0, 5)]);
}

#[test]
fn each_render_of_an_engine_gets_a_newer_revision() {
    let mut counter = RenderCounter::new();
    let first = counter.issue();
    let second = counter.issue();
    assert_eq!(first, RenderRevision(1));
    assert_eq!(second, RenderRevision(2));
    assert_ne!(first, second);
}

#[test]
fn a_visible_entry_is_found_at_its_slot_in_drawing_order() {
    let order = [(0, 2), (0, 5), (1, 0), (3, 1)];
    assert_eq!(depth_slot(&order, (0, 5)), Some(1));
    assert_eq!(depth_slot(&order, (3, 1)), Some(3));
    assert_eq!(depth_slot(&order, (1, 1)), None);
    assert_eq!(depth_slot(&[], (0, 0)), None);
}

#[test]
fn moved_elements_patch_their_entries_until_one_changes_visibility() {
    let order = [(0, 0), (1, 1), (2, 2)];
    let mut visible = vec!["a", "b", "c"];
    // Two moves that stay visible replace their entries in place.
    assert!(!patch_visible(&order, &mut visible, &[((1, 1), true, "b2"), ((2, 2), true, "c2")]));
    assert_eq!(visible, ["a", "b2", "c2"]);
    // A move that hides an element is a flip; the other moves are still written.
    assert!(patch_visible(&order, &mut visible, &[((0, 0), false, "a2"), ((2, 2), true, "c3")]));
    assert_eq!(visible, ["a", "b2", "c3"]);
    // So is one that shows an element that was not drawn.
    assert!(patch_visible(&order, &mut visible, &[((5, 3), true, "d")]));
}

#[test]
fn the_surface_list_holds_every_live_serial_in_order() {
    assert_eq!(surface_ids(&[7, 2, 9, 2, 4]), [2, 2, 4, 7, 9]);
    assert!(surface_ids(&[]).is_empty());
}
