use byte_engine::context::{slot_path, ElementKey};
use byte_engine::engine_state::EngineState;
use byte_engine::evaluation_context::ScopeId;
use byte_engine::primitive::{drag_event, Events, UiEvent};
use byte_engine::retained_tree::{ElementChange, RetainedTree, ROOT_PATH};
use byte_engine::runtime::Runtime;

#[test]
fn the_cursor_names_a_laid_out_element_or_nothing() {
    let mut state = EngineState::new();
    assert_eq!(state.cursor(), None);
    state.set_element_ids(&[4, 5]);
    assert_eq!(state.set_cursor(Some(4)), Some(4));
    assert_eq!(state.cursor(), Some(4));
    // An id the last layout does not hold clears the cursor.
    assert_eq!(state.set_cursor(Some(9)), None);
    assert_eq!(state.cursor(), None);
    state.set_cursor(Some(5));
    // A new layout without the element under the cursor clears it.
    state.set_element_ids(&[4]);
    assert_eq!(state.cursor(), None);
    assert!(state.contains_element(4) && !state.contains_element(5));
}

#[test]
fn drag_events_carry_no_payload() {
    let event: UiEvent<(f32, f32)> = drag_event(3, Events::Grabbed);
    assert_eq!(event, UiEvent { target: 3, kind: Events::Grabbed, delta: None, source: None });
}

#[test]
fn task_handles_name_live_slots_only() {
    let mut runtime: Runtime<&str, (f32, f32)> = Runtime::new();
    assert_eq!(runtime.handle_at(0), None);
    let task = runtime.spawn(ScopeId::root(), 1, "t");
    assert_eq!(runtime.handle_at(0), Some(task));
    runtime.remove(task);
    assert_eq!(runtime.handle_at(0), None);
}

#[test]
fn keys_expose_their_hash_and_trees_their_children_by_position() {
    let key = ElementKey::from("title");
    assert_eq!(ElementKey::new("title", None).hash_value(), key.hash_value());
    let mut tree = RetainedTree::new();
    let root = slot_path(ROOT_PATH, key);
    let child = slot_path(root, ElementKey::from("child"));
    tree.add_element(None, ROOT_PATH, root, |_| 0u8);
    tree.add_element(Some(root), root, child, |_| 0u8);
    assert_eq!(tree.index_of(1, child), Some(1));
    assert_eq!(tree.index_of(0, child), Some(1));
    assert_eq!(tree.index_of(0, 777), None);
    assert_eq!(tree.element(child).map(|element| element.id), Some(child));
    assert_eq!(tree.relations(), [(root, child)]);
    let text_edit = ElementChange {
        unchanged: false,
        transform_changed: false,
        flow_changed: false,
        placement_changed: false,
        text_changed: true,
        clip_changed: false,
        opacity_changed: false,
    };
    tree.record_update(1, text_edit);
    assert_eq!(tree.take_text_changes(), [1]);
    assert!(tree.take_text_changes().is_empty());
}
