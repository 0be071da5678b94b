use byte_engine::context::{slot_path, ElementKey};
use byte_engine::drag::Drag;
use byte_engine::engine_state::EngineState;
use byte_engine::evaluation_context::ScopeId;
use byte_engine::input::{InputQueue, PointerQueue};
use byte_engine::primitive::{Events, Key, TextEdit, UiEvent, UiTextEditEvent};
use byte_engine::retained_tree::{RetainedTree, ROOT_PATH};
use byte_engine::routing::{
    route_bubbling_event, route_hover, route_key_input_events, route_pointer_input, route_text_edit_events,
};
use byte_engine::runtime::{Runtime, WaitKey};

type Delta = (f32, f32);

fn element(_: u64) -> () {}

/// A root with a parent holding a child, and a sibling of the parent.
fn tree() -> (RetainedTree<()>, u64, u64, u64, u64) {
    let mut tree = RetainedTree::new();
    let root = slot_path(ROOT_PATH, ElementKey::from("root"));
    let parent = slot_path(root, ElementKey::from("parent"));
    let child = slot_path(parent, ElementKey::from("child"));
    let sibling = slot_path(root, ElementKey::from("sibling"));
    tree.add_element(None, ROOT_PATH, root, element);
    tree.add_element(Some(root), root, parent, element);
    tree.add_element(Some(parent), parent, child, element);
    tree.add_element(Some(root), root, sibling, element);
    (tree, root, parent, child, sibling)
}

#[test]
fn scroll_event_bubbles_from_hovered_child_to_parent() {
    let (tree, root, parent, child, sibling) = tree();
    assert_eq!(tree.ancestors(child), [child, parent, root]);
    assert_eq!(tree.ancestors(12345), [12345]);

    let mut runtime: Runtime<&str, Delta> = Runtime::new();
    let listener = runtime.spawn(ScopeId::root(), root, "listener");
    let other = runtime.spawn(ScopeId::root(), root, "other");
    let poll = runtime.next_poll();
    runtime.wait_for(listener, WaitKey::Event(parent, Events::Scrolled), poll);
    runtime.wait_for(other, WaitKey::Event(sibling, Events::Scrolled), poll);

    let woken = route_bubbling_event(&mut runtime, &tree, child, Events::Scrolled, Some((0.0, 3.0)), None);
    assert_eq!(woken, [listener]);
    assert_eq!(
        runtime.take_event(listener, parent, Events::Scrolled),
        Some(UiEvent { target: parent, kind: Events::Scrolled, delta: Some((0.0, 3.0)), source: None })
    );
    assert_eq!(runtime.take_event(other, sibling, Events::Scrolled), None);
}

#[test]
fn pointer_enter_and_exit_follow_the_hovered_surface_and_its_ancestors() {
    let (tree, root, parent, child, sibling) = tree();
    let mut runtime: Runtime<&str, Delta> = Runtime::new();
    let task = runtime.spawn(ScopeId::root(), root, "watcher");
    let mut drag: Drag<Delta> = Drag::new();
    let poll = runtime.next_poll();
    for target in [root, parent, child, sibling] {
        runtime.wait_for(task, WaitKey::Event(target, Events::PointerEntered), poll);
        runtime.wait_for(task, WaitKey::Event(target, Events::PointerExited), poll);
    }

    // Entering the child enters it and every ancestor.
    assert_eq!(route_hover(&mut runtime, &tree, &mut drag, None, Some(child)), [task, task, task]);
    assert!(runtime.take_event(task, child, Events::PointerEntered).is_some());
    assert!(runtime.take_event(task, parent, Events::PointerEntered).is_some());
    assert!(runtime.take_event(task, root, Events::PointerEntered).is_some());

    // Moving to the sibling leaves the child and parent, enters the sibling, and tells the root nothing.
    assert_eq!(route_hover(&mut runtime, &tree, &mut drag, Some(child), Some(sibling)), [task, task, task]);
    assert!(runtime.take_event(task, child, Events::PointerExited).is_some());
    assert!(runtime.take_event(task, parent, Events::PointerExited).is_some());
    assert!(runtime.take_event(task, sibling, Events::PointerEntered).is_some());
    assert!(runtime.take_event(task, root, Events::PointerExited).is_none());

    // An unchanged hover tells nobody.
    assert!(route_hover(&mut runtime, &tree, &mut drag, Some(sibling), Some(sibling)).is_empty());
}

#[test]
fn focused_key_goes_to_most_recent_focus_target() {
    let (tree, _root, parent, child, _sibling) = tree();
    let mut state = EngineState::new();
    let ids: Vec<u64> = tree.elements().iter().map(|e| e.id).collect();
    state.set_element_ids(&ids);
    let mut runtime: Runtime<&str, Delta> = Runtime::new();
    let task = runtime.spawn(ScopeId::root(), parent, "keys");
    let poll = runtime.next_poll();
    runtime.wait_for(task, WaitKey::Key(parent, Key::Escape), poll);
    runtime.wait_for(task, WaitKey::Key(child, Key::Escape), poll);
    runtime.request_focus(parent);
    runtime.request_focus(child);

    let mut input = InputQueue::new();
    input.update_key_state(Key::Escape, true);
    // A repeated press of a held key queues nothing.
    input.update_key_state(Key::Escape, true);
    assert_eq!(route_key_input_events(&mut input, &mut runtime, &state), [task]);
    assert!(runtime.take_key_event(task, child, Key::Escape).is_some());
    assert!(runtime.take_key_event(task, parent, Key::Escape).is_none());
    assert!(route_key_input_events(&mut input, &mut runtime, &state).is_empty());

    // Released and pressed again, it counts again.
    input.update_key_state(Key::Escape, false);
    input.update_key_state(Key::Escape, true);
    runtime.release_focus(child);
    assert_eq!(route_key_input_events(&mut input, &mut runtime, &state), [task]);
    assert!(runtime.take_key_event(task, parent, Key::Escape).is_some());
}

#[test]
fn focused_text_field_receives_inserted_text_edit() {
    let (tree, _root, parent, _child, _sibling) = tree();
    let mut state = EngineState::new();
    let ids: Vec<u64> = tree.elements().iter().map(|e| e.id).collect();
    state.set_element_ids(&ids);
    let mut runtime: Runtime<&str, Delta> = Runtime::new();
    let field = runtime.spawn(ScopeId::root(), parent, "field");
    let poll = runtime.next_poll();
    runtime.wait_for(field, WaitKey::TextEdit(parent), poll);
    runtime.request_focus(parent);

    let mut input = InputQueue::new();
    input.input_character('a');
    input.input_character('\0');
    input.delete_text_backward(None);
    assert_eq!(route_text_edit_events(&mut input, &mut runtime, &state), [field]);
    assert_eq!(
        runtime.take_text_edit_event(field, parent),
        Some(UiTextEditEvent { target: parent, edit: TextEdit::Inserted('a') })
    );
    assert_eq!(runtime.take_text_edit_event(field, parent), None);
}

#[test]
fn unfocused_text_field_does_not_receive_inserted_text_edit() {
    let (tree, _root, parent, _child, _sibling) = tree();
    let mut state = EngineState::new();
    let ids: Vec<u64> = tree.elements().iter().map(|e| e.id).collect();
    state.set_element_ids(&ids);
    let mut runtime: Runtime<&str, Delta> = Runtime::new();
    let field = runtime.spawn(ScopeId::root(), parent, "field");
    let poll = runtime.next_poll();
    runtime.wait_for(field, WaitKey::TextEdit(parent), poll);

    let mut input = InputQueue::new();
    input.input_character('a');
    assert!(route_text_edit_events(&mut input, &mut runtime, &state).is_empty());
    assert_eq!(runtime.take_text_edit_event(field, parent), None);
}

#[test]
fn focused_text_field_delete_emits_deleted_last_character() {
    let mut input = InputQueue::new();
    input.delete_text_backward(Some('z'));
    assert_eq!(input.take_text_edits(), [TextEdit::Deleted('z')]);
    input.update_key_state(Key::Backspace, true);
    input.input_character('q');
    input.cancel();
    assert!(input.take_key_presses().is_empty());
    assert!(input.take_text_edits().is_empty());
}

#[test]
fn clicks_and_scrolls_land_on_the_hit_surface_newest_first() {
    let (tree, root, parent, child, _sibling) = tree();
    let mut runtime: Runtime<&str, Delta> = Runtime::new();
    let task = runtime.spawn(ScopeId::root(), root, "watcher");
    let poll = runtime.next_poll();
    runtime.wait_for(task, WaitKey::Event(child, Events::Actuated), poll);
    runtime.wait_for(task, WaitKey::Event(parent, Events::Scrolled), poll);

    // A release actuates nothing; the press does, and every scroll bubbles from the child.
    let mut pointer: PointerQueue<Delta, Delta> = PointerQueue::new();
    pointer.update_click_state(true);
    pointer.update_click_state(false);
    pointer.update_scroll_state((0.0, 1.0));
    pointer.update_scroll_state((0.0, 2.0));
    assert!(!pointer.clicking);
    let woken = route_pointer_input(&mut runtime, &tree, Some(child), &mut pointer);
    assert!(pointer.clicks.is_empty());
    assert!(pointer.scrolls.is_empty());
    assert_eq!(woken, [task, task]);
    assert!(runtime.take_event(task, child, Events::Actuated).is_some());
    // The wait ended with the newest scroll, so the older one found nobody waiting.
    assert_eq!(runtime.take_event(task, parent, Events::Scrolled).expect("scrolled").delta, Some((0.0, 2.0)));
    assert!(runtime.take_event(task, parent, Events::Scrolled).is_none());

    // Without a surface under the pointer the queues are still drained and nothing is told.
    runtime.wait_for(task, WaitKey::Event(child, Events::Actuated), poll);
    pointer.update_click_state(true);
    pointer.update_scroll_state((1.0, 0.0));
    assert!(route_pointer_input(&mut runtime, &tree, None, &mut pointer).is_empty());
    assert!(pointer.clicks.is_empty() && pointer.scrolls.is_empty());
    assert!(pointer.clicking);
}

#[test]
fn hover_records_the_drop_preview_only_while_a_source_is_held() {
    let (tree, _root, parent, child, sibling) = tree();
    let mut runtime: Runtime<&str, Delta> = Runtime::new();
    let mut drag: Drag<Delta> = Drag::new();
    route_hover(&mut runtime, &tree, &mut drag, None, Some(child));
    assert!(drag.capture().is_none());
    assert!(drag.press(sibling, (0.0, 0.0)));
    route_hover(&mut runtime, &tree, &mut drag, Some(child), Some(parent));
    assert_eq!(drag.capture().expect("held").over, Some(parent));
    route_hover(&mut runtime, &tree, &mut drag, Some(parent), None);
    assert_eq!(drag.capture().expect("held").over, None);
}

#[test]
fn escape_release_does_not_wake_key_future() {
    let (tree, _root, parent, _child, _sibling) = tree();
    let mut state = EngineState::new();
    let ids: Vec<u64> = tree.elements().iter().map(|e| e.id).collect();
    state.set_element_ids(&ids);
    let mut runtime: Runtime<&str, Delta> = Runtime::new();
    let task = runtime.spawn(ScopeId::root(), parent, "button");
    runtime.request_focus(parent);
    let poll = runtime.next_poll();
    runtime.wait_for(task, WaitKey::Key(parent, Key::Escape), poll);

    let mut input = InputQueue::new();
    input.update_key_state(Key::Escape, false);
    assert!(route_key_input_events(&mut input, &mut runtime, &state).is_empty());
    assert!(runtime.take_key_event(task, parent, Key::Escape).is_none());

    input.update_key_state(Key::Escape, true);
    assert_eq!(route_key_input_events(&mut input, &mut runtime, &state), [task]);
    assert!(runtime.take_key_event(task, parent, Key::Escape).is_some());
}

#[test]
fn dropping_an_event_wait_discards_events_until_the_next_wait() {
    let (tree, root, _parent, child, _sibling) = tree();
    let mut runtime: Runtime<&str, Delta> = Runtime::new();
    let task = runtime.spawn(ScopeId::root(), root, "target");
    let mut pointer: PointerQueue<Delta, Delta> = PointerQueue::new();
    let mut log = Vec::new();
    let mut click = |runtime: &mut Runtime<&str, Delta>, pointer: &mut PointerQueue<Delta, Delta>| {
        pointer.update_click_state(true);
        pointer.update_click_state(false);
        route_pointer_input(runtime, &tree, Some(child), pointer)
    };

    // One click is waited for and received.
    let first = runtime.next_poll();
    runtime.wait_for(task, WaitKey::Event(child, Events::Actuated), first);
    assert_eq!(click(&mut runtime, &mut pointer), [task]);
    if runtime.take_event(task, child, Events::Actuated).is_some() {
        log.push("first");
    }
    // A second wait is started and abandoned: the next poll does not register it again.
    let second = runtime.next_poll();
    runtime.wait_for(task, WaitKey::Event(child, Events::Actuated), second);
    let third = runtime.next_poll();
    runtime.keep_waits_from(task, third);
    // Clicks while no wait is live reach nobody and are not kept for later.
    assert!(click(&mut runtime, &mut pointer).is_empty());
    assert!(click(&mut runtime, &mut pointer).is_empty());
    let fourth = runtime.next_poll();
    runtime.wait_for(task, WaitKey::Event(child, Events::Actuated), fourth);
    if runtime.take_event(task, child, Events::Actuated).is_some() {
        log.push("unexpected");
    }
    assert_eq!(log, ["first"], "a click fired while no wait was live was kept");
    assert_eq!(click(&mut runtime, &mut pointer), [task]);
    if runtime.take_event(task, child, Events::Actuated).is_some() {
        log.push("second");
    }
    assert_eq!(log, ["first", "second"]);
}
