use byte_engine::context::{slot_path, ElementKey};
use byte_engine::drag::{Drag, DragDrop};
use byte_engine::evaluation_context::ScopeId;
use byte_engine::input::{InputQueue, PointerQueue};
use byte_engine::primitive::{Events, Key};
use byte_engine::retained_tree::{RetainedTree, ROOT_PATH};
use byte_engine::routing::{cancel, press, release, route_drop, route_drops};
use byte_engine::runtime::{Runtime, TaskId, WaitKey};

type Point = (i32, i32);

const THRESHOLD: i32 = 4;

fn crossed(origin: Point, position: Point) -> bool {
    let (x, y) = (position.0 - origin.0, position.1 - origin.1);
    x * x + y * y >= THRESHOLD * THRESHOLD
}

fn element(_: u64) -> () {}

/// A target with an inner child, and a source beside the target, all under one root.
fn board() -> (RetainedTree<()>, u64, u64, u64) {
    let mut tree = RetainedTree::new();
    let root = slot_path(ROOT_PATH, ElementKey::from("root"));
    let target = slot_path(root, ElementKey::from("target"));
    let inner = slot_path(target, ElementKey::from("inner"));
    let source = slot_path(root, ElementKey::from("source"));
    tree.add_element(None, ROOT_PATH, root, element);
    tree.add_element(Some(root), root, target, element);
    tree.add_element(Some(target), target, inner, element);
    tree.add_element(Some(root), root, source, element);
    (tree, target, inner, source)
}

/// Registers the board's waits: drops on the target, grabs and ends on the source.
fn listen(runtime: &mut Runtime<&'static str, ()>, task: TaskId, target: u64, source: u64) {
    let poll = runtime.next_poll();
    runtime.wait_for(task, WaitKey::Event(target, Events::Dropped), poll);
    runtime.wait_for(task, WaitKey::Event(source, Events::Grabbed), poll);
    runtime.wait_for(task, WaitKey::Event(source, Events::DragEnded), poll);
}

#[test]
fn drag_events_reach_the_source_and_the_surface_under_the_release() {
    let (tree, target, inner, source) = board();
    let mut runtime: Runtime<&'static str, ()> = Runtime::new();
    let task = runtime.spawn(ScopeId::root(), target, "board");
    let mut drag: Drag<Point> = Drag::new();
    let mut pointer: PointerQueue<(), Point> = PointerQueue::new();

    // Motion past the threshold starts the drag; the drop lands on the target's child and bubbles up.
    listen(&mut runtime, task, target, source);
    let origin = (10, 10);
    let (grabbed, woken) = press(&mut runtime, &mut drag, Some(source), origin);
    assert!(grabbed);
    assert_eq!(woken, [task]);
    assert!(runtime.take_event(task, source, Events::Grabbed).is_some());
    assert!(drag.move_to((40, 40), crossed(origin, (40, 40))));
    let (dropped, woken) = release(&mut runtime, &mut drag, &mut pointer, (40, 40), crossed(origin, (40, 40)));
    assert_eq!(dropped, Some(DragDrop { source, position: (40, 40) }));
    assert!(woken.is_empty());
    assert_eq!(pointer.drops, [DragDrop { source, position: (40, 40) }]);
    let surface_under = |d: DragDrop<Point>| if d.position.0 >= 30 && d.position.0 < 50 { Some(inner) } else { None };
    let (targets, woken) = route_drops(&mut runtime, &tree, &mut pointer, surface_under);
    assert_eq!(targets, [Some(inner)]);
    assert!(pointer.drops.is_empty());
    // The target hears the drop bubbling from its child, then the source hears where its gesture ended.
    assert_eq!(woken, [task, task]);
    assert_eq!(runtime.take_event(task, target, Events::Dropped).expect("dropped").source, Some(source));
    assert_eq!(runtime.take_event(task, source, Events::DragEnded).expect("ended").source, Some(inner));

    // A release whose motion activates the drag still drops.
    listen(&mut runtime, task, target, source);
    let origin = (1, 1);
    assert!(press(&mut runtime, &mut drag, Some(source), origin).0);
    assert!(runtime.take_event(task, source, Events::Grabbed).is_some());
    let (dropped, _) = release(&mut runtime, &mut drag, &mut pointer, (19, 19), crossed(origin, (19, 19)));
    assert_eq!(dropped, Some(DragDrop { source, position: (19, 19) }));
    pointer.drops.clear();
    route_drop(&mut runtime, &tree, source, Some(target));
    assert_eq!(runtime.take_event(task, target, Events::Dropped).expect("dropped").source, Some(source));
    assert_eq!(runtime.take_event(task, source, Events::DragEnded).expect("ended").source, Some(target));

    // A release outside every surface drops nowhere.
    listen(&mut runtime, task, target, source);
    let origin = (10, 10);
    assert!(press(&mut runtime, &mut drag, Some(source), origin).0);
    assert!(runtime.take_event(task, source, Events::Grabbed).is_some());
    assert!(release(&mut runtime, &mut drag, &mut pointer, (90, 90), crossed(origin, (90, 90))).0.is_some());
    let (targets, woken) = route_drops(&mut runtime, &tree, &mut pointer, surface_under);
    assert_eq!(targets, [None]);
    assert_eq!(woken, [task]);
    assert!(runtime.take_event(task, target, Events::Dropped).is_none());
    assert_eq!(runtime.take_event(task, source, Events::DragEnded).expect("ended").source, None);

    // A click ends its grab without a drop, and the source hears so at once.
    listen(&mut runtime, task, target, source);
    assert!(press(&mut runtime, &mut drag, Some(source), origin).0);
    assert!(runtime.take_event(task, source, Events::Grabbed).is_some());
    let (dropped, woken) = release(&mut runtime, &mut drag, &mut pointer, (12, 12), crossed(origin, (12, 12)));
    assert_eq!(dropped, None);
    assert!(pointer.drops.is_empty());
    assert_eq!(woken, [task]);
    assert_eq!(runtime.take_event(task, source, Events::DragEnded).expect("ended").source, None);
    assert!(runtime.take_event(task, target, Events::Dropped).is_none());
}

#[test]
fn nothing_is_grabbed_without_a_surface_or_while_a_source_is_held() {
    let (_tree, target, _inner, source) = board();
    let mut runtime: Runtime<&'static str, ()> = Runtime::new();
    let task = runtime.spawn(ScopeId::root(), target, "board");
    let mut drag: Drag<Point> = Drag::new();
    listen(&mut runtime, task, target, source);
    let (grabbed, woken) = press(&mut runtime, &mut drag, None, (30, 30));
    assert!(!grabbed);
    assert!(woken.is_empty());
    assert!(press(&mut runtime, &mut drag, Some(source), (10, 10)).0);
    let (grabbed, woken) = press(&mut runtime, &mut drag, Some(target), (10, 10));
    assert!(!grabbed);
    assert!(woken.is_empty());
    assert_eq!(drag.capture().expect("held").source, source);
}

#[test]
fn cancel_restores_the_source_and_discards_queued_input() {
    let (_tree, target, _inner, source) = board();
    let mut runtime: Runtime<&'static str, ()> = Runtime::new();
    let task = runtime.spawn(ScopeId::root(), target, "board");
    let mut drag: Drag<Point> = Drag::new();
    let mut pointer: PointerQueue<(), Point> = PointerQueue::new();
    let mut input = InputQueue::new();
    listen(&mut runtime, task, target, source);
    assert!(press(&mut runtime, &mut drag, Some(source), (10, 10)).0);
    assert!(runtime.take_event(task, source, Events::Grabbed).is_some());
    assert!(drag.move_to((20, 10), crossed((10, 10), (20, 10))));
    input.update_key_state(Key::Escape, true);
    input.input_character('a');
    pointer.update_click_state(true);
    pointer.update_scroll_state(());

    let (restored, woken) = cancel(&mut runtime, &mut input, &mut pointer, &mut drag);
    assert_eq!(restored, Some(source));
    assert_eq!(woken, [task]);
    assert_eq!(runtime.take_event(task, source, Events::DragEnded).expect("ended").source, None);
    assert!(input.take_key_presses().is_empty());
    assert!(input.take_text_edits().is_empty());
    assert!(!pointer.clicking && pointer.clicks.is_empty() && pointer.scrolls.is_empty() && pointer.drops.is_empty());
    assert_eq!(cancel(&mut runtime, &mut input, &mut pointer, &mut drag).0, None);
    assert!(release(&mut runtime, &mut drag, &mut pointer, (20, 10), true).0.is_none());
    assert!(press(&mut runtime, &mut drag, Some(source), (10, 10)).0);
}
