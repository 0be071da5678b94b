use byte_engine::context::{slot_path, ElementKey};
use byte_engine::element::Id;
use byte_engine::retained_tree::{ElementChange, RetainedTree, ROOT_PATH};

#[derive(Debug, Clone, Copy, PartialEq)]
struct Container {
    opacity: f32,
}

fn container(_: u64) -> Container {
    Container { opacity: 1.0 }
}

fn change(unchanged: bool) -> ElementChange {
    ElementChange {
        unchanged,
        transform_changed: false,
        flow_changed: false,
        placement_changed: false,
        text_changed: false,
        clip_changed: false,
        opacity_changed: !unchanged,
    }
}

fn parent_id(tree: &RetainedTree<Container>, id: Id) -> Option<Id> {
    let index = tree.element_index(id)?;
    tree.parent_index_of(index).map(|parent| tree.elements()[parent].id)
}

fn child_ids(tree: &RetainedTree<Container>, id: Id) -> Vec<Id> {
    let index = tree.element_index(id).expect("element");
    tree.children_of(index).iter().map(|&child| tree.elements()[child].id).collect()
}

#[test]
fn retained_tree_revision_tracks_insertion_mutation_and_removal() {
    let mut tree = RetainedTree::new();
    let start = tree.revision();
    let id = slot_path(ROOT_PATH, ElementKey::from("root"));
    assert!(tree.add_element(None, ROOT_PATH, id, container).is_some());
    assert!(tree.revision() > start);

    let after_insert = tree.revision();
    // Re-declaring the same path on a later frame is idempotent and must not invalidate retained state.
    tree.begin_frame();
    assert!(tree.add_element(None, ROOT_PATH, id, container).is_none());
    assert_eq!(tree.revision(), after_insert);

    // An edit that writes nothing new keeps retained state valid.
    let index = tree.element_index(id).expect("root");
    tree.record_update(index, change(true));
    assert_eq!(tree.revision(), after_insert);

    tree.element_mut(index).opacity = 0.5;
    tree.record_update(index, change(false));
    assert_eq!(tree.elements()[index].element.opacity, 0.5);
    assert!(tree.revision() > after_insert);

    let after_mutation = tree.revision();
    let child = slot_path(id, ElementKey::from("child"));
    let child_path = child;
    tree.add_element(Some(id), id, child, container);
    let after_child = tree.revision();
    assert!(after_child > after_mutation);
    assert!(!tree.remove_scope(child_path).is_empty());
    assert!(tree.revision() > after_child);
    assert!(tree.remove_scope(child_path).is_empty());
}

#[test]
fn reparent_appends_to_the_new_parent_and_refuses_cycles() {
    let mut tree = RetainedTree::new();
    let root = slot_path(ROOT_PATH, ElementKey::from("root"));
    let first = slot_path(root, ElementKey::from("first"));
    let second = slot_path(root, ElementKey::from("second"));
    let inner = slot_path(second, ElementKey::from("inner"));
    tree.add_element(None, ROOT_PATH, root, container);
    tree.add_element(Some(root), root, first, container);
    tree.add_element(Some(root), root, second, container);
    tree.add_element(Some(second), second, inner, container);
    assert_eq!(child_ids(&tree, root), [first, second]);

    tree.reparent(first, second);
    assert_eq!(parent_id(&tree, first), Some(second));
    assert_eq!(child_ids(&tree, second), [inner, first]);
    assert_eq!(child_ids(&tree, root), [second]);

    // A cycle is refused, so `first` stays under `second`.
    let before = tree.revision();
    tree.reparent(second, first);
    assert_eq!(parent_id(&tree, second), Some(root));
    assert_eq!(parent_id(&tree, first), Some(second));
    assert_eq!(tree.revision(), before);

    // Moving onto itself or an unknown element is refused too.
    tree.reparent(first, first);
    tree.reparent(first, 12345);
    assert_eq!(parent_id(&tree, first), Some(second));
}

#[test]
fn removing_a_scope_follows_declarations_not_visual_parents() {
    let mut tree = RetainedTree::new();
    let root = slot_path(ROOT_PATH, ElementKey::from("root"));
    let panel = slot_path(root, ElementKey::from("panel"));
    let label = slot_path(panel, ElementKey::from("label"));
    let other = slot_path(root, ElementKey::from("other"));
    tree.add_element(None, ROOT_PATH, root, container);
    tree.add_element(Some(root), root, panel, container);
    tree.add_element(Some(panel), panel, label, container);
    tree.add_element(Some(root), root, other, container);
    // `label` now sits visually under `other` but was declared under `panel`.
    tree.reparent(label, other);

    let removed = tree.remove_scope(panel).clone();
    assert_eq!(removed.len(), 2);
    assert!(removed.contains(&panel) && removed.contains(&label));
    assert_eq!(tree.len(), 2);
    assert_eq!(child_ids(&tree, other), Vec::<Id>::new());
    assert!(tree.element_index(label).is_none());

    // The root scope is never removed.
    assert!(tree.remove_scope(ROOT_PATH).is_empty());
    assert_eq!(tree.len(), 2);
}

#[test]
fn a_key_declared_twice_in_one_frame_is_refused() {
    let mut tree = RetainedTree::new();
    let root = slot_path(ROOT_PATH, ElementKey::from("root"));
    assert_eq!(tree.add_element(None, ROOT_PATH, root, container), Some(0));
    let revision = tree.revision();
    assert_eq!(tree.add_element(None, ROOT_PATH, root, container), None);
    assert_eq!(tree.revision(), revision);
    // A parent the tree does not hold is refused.
    let orphan = slot_path(root, ElementKey::from("orphan"));
    assert_eq!(tree.add_element(Some(999), root, orphan, container), None);
    assert_eq!(tree.len(), 1);
    assert!(tree.element_index(orphan).is_none());
}

#[test]
fn declaration_paths_lead_back_to_their_ancestors() {
    let mut tree: RetainedTree<Container> = RetainedTree::new();
    tree.declare_scope(10, ROOT_PATH);
    tree.declare_scope(20, 10);
    tree.declare_scope(30, 20);
    assert!(tree.path_is_under(30, 10));
    assert!(tree.path_is_under(30, 30));
    assert!(tree.path_is_under(30, ROOT_PATH));
    assert!(!tree.path_is_under(10, 30));
    assert!(!tree.path_is_under(40, 10));
}

#[test]
fn transform_changes_are_recorded_once_and_taken() {
    let mut tree = RetainedTree::new();
    let root = slot_path(ROOT_PATH, ElementKey::from("root"));
    tree.add_element(None, ROOT_PATH, root, container);
    let moved = ElementChange { transform_changed: true, opacity_changed: false, ..change(false) };
    tree.record_update(0, moved);
    tree.record_update(0, moved);
    assert_eq!(tree.take_transform_changes(), [0]);
    assert!(tree.take_transform_changes().is_empty());
    let revisions = tree.revisions();
    assert_eq!(revisions.revision, 3);
    // A pure transform edit leaves what custom flows observe alone.
    assert_eq!(revisions.non_transform, 1);
}
