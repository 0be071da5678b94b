use std::collections::HashSet;

use byte_engine::context::{slot_path, ElementKey};
use byte_engine::engine_state::EngineState;
use byte_engine::evaluation_context::ScopeId;
use byte_engine::futures::RenderFuture;
use byte_engine::primitive::{Events, Key, TextEdit, UiEvent, UiKeyEvent, UiTextEditEvent};
use byte_engine::retained_tree::ROOT_PATH;
use byte_engine::runtime::{Runtime, WaitKey};

type Delta = (f32, f32);

fn event(target: u64, kind: Events) -> UiEvent<Delta> {
    UiEvent { target, kind, delta: None, source: None }
}

#[test]
fn requesting_focus_again_moves_target_without_duplication() {
    let mut runtime: Runtime<&str, Delta> = Runtime::new();
    let frame = slot_path(ROOT_PATH, ElementKey::from("frame"));
    let first = slot_path(frame, ElementKey::from("first"));
    let second = slot_path(frame, ElementKey::from("second"));
    let mut state = EngineState::new();
    state.set_element_ids(&[frame, first, second]);

    let task = runtime.spawn(ScopeId::root(), ROOT_PATH, "component");
    runtime.request_focus(first);
    runtime.request_focus(second);
    runtime.request_focus(first);
    let (mut first_hits, mut second_hits) = (0, 0);

    let poll = runtime.next_poll();
    runtime.wait_for(task, WaitKey::Key(first, Key::Escape), poll);
    let target = runtime.focused_target(&state).expect("focused");
    assert_eq!(runtime.push_key_event(UiKeyEvent { target, key: Key::Escape }), [task]);
    if runtime.take_key_event(task, first, Key::Escape).is_some() {
        first_hits += 1;
    }
    runtime.release_focus(first);

    let poll = runtime.next_poll();
    runtime.wait_for(task, WaitKey::Key(second, Key::Escape), poll);
    let target = runtime.focused_target(&state).expect("focused");
    assert_eq!(runtime.push_key_event(UiKeyEvent { target, key: Key::Escape }), [task]);
    if runtime.take_key_event(task, second, Key::Escape).is_some() {
        second_hits += 1;
    }

    assert_eq!(first_hits, 1);
    assert_eq!(second_hits, 1);
}

#[test]
fn releasing_focus_reveals_previous_focus_target() {
    let mut runtime: Runtime<&str, Delta> = Runtime::new();
    let first = slot_path(ROOT_PATH, ElementKey::from("first"));
    let second = slot_path(ROOT_PATH, ElementKey::from("second"));
    let mut state = EngineState::new();
    state.set_element_ids(&[first, second]);
    let first_task = runtime.spawn(ScopeId::root(), first, "first");
    let second_task = runtime.spawn(ScopeId::root(), second, "second");
    let poll = runtime.next_poll();
    runtime.request_focus(first);
    runtime.wait_for(first_task, WaitKey::Key(first, Key::Escape), poll);
    runtime.request_focus(second);
    runtime.release_focus(second);
    runtime.wait_for(second_task, WaitKey::Key(second, Key::Escape), poll);

    let target = runtime.focused_target(&state).expect("focused");
    assert_eq!(target, first);
    assert_eq!(runtime.push_key_event(UiKeyEvent { target, key: Key::Escape }), [first_task]);
    assert!(runtime.take_key_event(first_task, first, Key::Escape).is_some());
    assert!(runtime.take_key_event(second_task, second, Key::Escape).is_none());
}

#[test]
fn focus_skips_targets_the_layout_no_longer_holds() {
    let mut runtime: Runtime<&str, Delta> = Runtime::new();
    let mut state = EngineState::new();
    state.set_element_ids(&[1, 2]);
    runtime.request_focus(1);
    runtime.request_focus(3);
    assert_eq!(runtime.focused_target(&state), Some(1));
    state.set_element_ids(&[]);
    assert_eq!(runtime.focused_target(&state), None);
}

#[test]
fn events_reach_only_tasks_that_wait_for_them_and_are_consumed_by_the_delivery() {
    let mut runtime: Runtime<&str, Delta> = Runtime::new();
    let a = runtime.spawn(ScopeId::root(), 1, "a");
    let b = runtime.spawn(ScopeId::root(), 2, "b");
    let poll = runtime.next_poll();
    runtime.wait_for(a, WaitKey::Event(7, Events::Actuated), poll);

    // Nobody waits for a scroll: it is discarded.
    assert!(runtime.push_event(event(7, Events::Scrolled)).is_empty());
    assert_eq!(runtime.push_event(event(7, Events::Actuated)), [a]);
    // The wait was consumed: a second click is not queued.
    assert!(runtime.push_event(event(7, Events::Actuated)).is_empty());
    assert_eq!(runtime.take_event(a, 7, Events::Actuated), Some(event(7, Events::Actuated)));
    assert_eq!(runtime.take_event(a, 7, Events::Actuated), None);
    assert_eq!(runtime.take_event(b, 7, Events::Actuated), None);
}

#[test]
fn text_edits_reach_the_waiting_field() {
    let mut runtime: Runtime<&str, Delta> = Runtime::new();
    let task = runtime.spawn(ScopeId::root(), 1, "field");
    let poll = runtime.next_poll();
    runtime.wait_for(task, WaitKey::TextEdit(9), poll);
    let edit = UiTextEditEvent { target: 9, edit: TextEdit::Inserted('x') };
    assert_eq!(runtime.push_text_edit_event(edit), [task]);
    assert_eq!(runtime.take_text_edit_event(task, 9), Some(edit));
}

#[test]
fn a_wait_its_task_stopped_polling_is_dropped() {
    let mut runtime: Runtime<&str, Delta> = Runtime::new();
    let task = runtime.spawn(ScopeId::root(), 1, "t");
    let first = runtime.next_poll();
    runtime.wait_for(task, WaitKey::Event(7, Events::Actuated), first);
    runtime.wait_for(task, WaitKey::Event(8, Events::Actuated), first);
    let second = runtime.next_poll();
    // The second poll only waits for element 8 again.
    runtime.wait_for(task, WaitKey::Event(8, Events::Actuated), second);
    runtime.keep_waits_from(task, second);
    assert!(runtime.push_event(event(7, Events::Actuated)).is_empty());
    assert_eq!(runtime.push_event(event(8, Events::Actuated)), [task]);
}

#[test]
fn timers_wake_once_due_and_report_the_earliest_deadline() {
    let mut runtime: Runtime<&str, Delta> = Runtime::new();
    let a = runtime.spawn(ScopeId::root(), 1, "a");
    let b = runtime.spawn(ScopeId::root(), 2, "b");
    let poll = runtime.next_poll();
    runtime.wait_for(a, WaitKey::Timer(500), poll);
    runtime.wait_for(b, WaitKey::Timer(200), poll);
    assert_eq!(runtime.next_deadline(), Some(200));
    assert!(runtime.wake_due_timers(100).is_empty());
    assert_eq!(runtime.wake_due_timers(200), [b]);
    assert_eq!(runtime.next_deadline(), Some(500));
    assert_eq!(runtime.begin_frame(600), [a]);
    assert_eq!(runtime.frame(), 1);
    assert_eq!(runtime.next_deadline(), None);
}

#[test]
fn a_removed_task_handle_finds_nothing_even_after_its_slot_is_reused() {
    let mut runtime: Runtime<&str, Delta> = Runtime::new();
    let old = runtime.spawn(ScopeId::root(), 1, "old");
    assert!(runtime.remove(old).is_some());
    assert!(runtime.remove(old).is_none());
    let new = runtime.spawn(ScopeId::root(), 2, "new");
    assert_eq!(runtime.slot_count(), 1);
    assert!(runtime.task(old).is_none());
    assert_eq!(runtime.task(new).map(|task| task.path), Some(2));
    assert_eq!(runtime.take_future(new), Some("new"));
    assert_eq!(runtime.take_future(new), None);
    runtime.put_future(new, "again");
    assert_eq!(runtime.take_future(new), Some("again"));
}

#[test]
fn frame_waits_take_over_the_frame_of_a_dropped_wait() {
    let mut runtime: Runtime<&str, Delta> = Runtime::new();
    let task = runtime.spawn(ScopeId::root(), 1, "t");
    let first = runtime.next_poll();
    let (token, seen) = runtime.start_frame_wait(task, first);
    assert_eq!(seen, 0);
    runtime.keep_frame_wait(task, token, seen, first);
    assert!(runtime.needs_tick());
    runtime.begin_frame(0);
    runtime.begin_frame(0);
    // A later poll drops the old wait and starts a new one, which counts from the old wait's frame.
    let second = runtime.next_poll();
    let (next_token, next_seen) = runtime.start_frame_wait(task, second);
    assert_ne!(next_token, token);
    assert_eq!(next_seen, 0);
    runtime.keep_frame_wait(task, next_token, next_seen, second);
    runtime.end_frame_wait(task, next_token);
    assert!(!runtime.needs_tick());
}

#[test]
fn removed_targets_lose_their_focus_waits_and_queued_input() {
    let mut runtime: Runtime<&str, Delta> = Runtime::new();
    let task = runtime.spawn(ScopeId::root(), 1, "t");
    let poll = runtime.next_poll();
    runtime.wait_for(task, WaitKey::Event(5, Events::Actuated), poll);
    runtime.wait_for(task, WaitKey::Event(6, Events::Actuated), poll);
    runtime.push_event(event(5, Events::Actuated));
    runtime.request_focus(5);
    let mut targets = HashSet::new();
    targets.insert(5);
    targets.insert(6);
    runtime.remove_targets(&targets);
    assert_eq!(runtime.take_event(task, 5, Events::Actuated), None);
    assert!(runtime.push_event(event(6, Events::Actuated)).is_empty());
    let mut state = EngineState::new();
    state.set_element_ids(&[5]);
    assert_eq!(runtime.focused_target(&state), None);
}

#[test]
fn scopes_get_fresh_identities() {
    let mut runtime: Runtime<&str, Delta> = Runtime::new();
    let a = runtime.next_scope();
    let b = runtime.next_scope();
    assert_ne!(a, b);
    assert_ne!(a, ScopeId::root());
}

#[test]
fn a_poll_is_numbered_and_keeps_only_the_waits_it_registered() {
    let mut runtime: Runtime<&str, Delta> = Runtime::new();
    let task = runtime.spawn(ScopeId::root(), ROOT_PATH, "component");
    let stale = runtime.next_poll();
    runtime.wait_for(task, WaitKey::Event(1, Events::Actuated), stale);

    let (future, poll) = runtime.start_poll(task).expect("ready to poll");
    assert_eq!((future, poll), ("component", stale + 1));
    // While its future is out, the task is not polled again, though the poll is numbered.
    assert!(runtime.start_poll(task).is_none());
    runtime.wait_for(task, WaitKey::Event(2, Events::Scrolled), poll);
    assert!(runtime.finish_poll(task, poll, Some(future)).is_none());
    let waits = &runtime.task(task).expect("pending").waits;
    assert_eq!(waits.len(), 1);
    assert_eq!(waits[0].key, WaitKey::Event(2, Events::Scrolled));
    assert_eq!(runtime.task(task).expect("pending").future, Some("component"));

    // A completed future ends its task.
    let (_, poll) = runtime.start_poll(task).expect("ready to poll");
    let ended = runtime.finish_poll(task, poll, None).expect("ended");
    assert_eq!(ended.path, ROOT_PATH);
    assert!(runtime.task(task).is_none());
    assert!(runtime.start_poll(task).is_none());
}

#[test]
fn next_tick_is_now_while_a_component_waits_for_frames() {
    let mut runtime: Runtime<&str, Delta> = Runtime::new();
    let task = runtime.spawn(ScopeId::root(), ROOT_PATH, "animation");
    let poll = runtime.next_poll();
    let mut frame = RenderFuture::new();
    assert!(!frame.poll(&mut runtime, task, poll));
    assert_eq!(runtime.next_tick(40), Some(40));
}

#[test]
fn next_tick_follows_a_pending_ui_timer() {
    let mut runtime: Runtime<&str, Delta> = Runtime::new();
    let task = runtime.spawn(ScopeId::root(), ROOT_PATH, "timer");
    let poll = runtime.next_poll();
    let now = 1_000;
    runtime.wait_for(task, WaitKey::Timer(now + 3_600_000), poll);
    runtime.wait_for(task, WaitKey::Event(1, Events::Actuated), poll);
    let tick = runtime.next_tick(now).expect("A pending UI timer did not schedule a tick.");
    assert!(tick > now + 3_500_000);
    assert!(tick <= now + 3_600_000);
}
