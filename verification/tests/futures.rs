use byte_engine::evaluation_context::{EvaluationContext, ScopeId};
use byte_engine::futures::{EventFuture, KeyFuture, RenderFuture, TextEditFuture, With};
use byte_engine::primitive::{Events, Key, TextEdit, UiEvent, UiKeyEvent, UiTextEditEvent};
use byte_engine::runtime::Runtime;

type Delta = (f32, f32);

fn event(target: u64, kind: Events) -> UiEvent<Delta> {
    UiEvent { target, kind, delta: None, source: None }
}

#[test]
fn an_event_wait_registers_until_its_event_arrives_and_then_stays_complete() {
    let mut runtime: Runtime<&str, Delta> = Runtime::new();
    let task = runtime.spawn(ScopeId::root(), 1, "surface");
    let mut wait = EventFuture::new(7, Events::Actuated);

    let poll = runtime.next_poll();
    assert_eq!(wait.poll(&mut runtime, task, poll), None);
    assert_eq!(runtime.push_event(event(7, Events::Actuated)), [task]);

    let poll = runtime.next_poll();
    assert_eq!(wait.poll(&mut runtime, task, poll), Some(event(7, Events::Actuated)));
    assert!(wait.complete);
    // A completed wait stays pending and registers nothing.
    let poll = runtime.next_poll();
    assert_eq!(wait.poll(&mut runtime, task, poll), None);
    assert!(runtime.push_event(event(7, Events::Actuated)).is_empty());
}

#[test]
fn key_and_text_edit_waits_take_their_input() {
    let mut runtime: Runtime<&str, Delta> = Runtime::new();
    let task = runtime.spawn(ScopeId::root(), 1, "field");
    let mut key = KeyFuture::new(3, Key::Escape);
    let mut edit = TextEditFuture::new(3);
    let poll = runtime.next_poll();
    assert_eq!(key.poll(&mut runtime, task, poll), None);
    assert_eq!(edit.poll(&mut runtime, task, poll), None);
    runtime.push_key_event(UiKeyEvent { target: 3, key: Key::Escape });
    runtime.push_text_edit_event(UiTextEditEvent { target: 3, edit: TextEdit::Inserted('a') });
    let poll = runtime.next_poll();
    assert_eq!(key.poll(&mut runtime, task, poll), Some(UiKeyEvent { target: 3, key: Key::Escape }));
    assert_eq!(edit.poll(&mut runtime, task, poll), Some(UiTextEditEvent { target: 3, edit: TextEdit::Inserted('a') }));
}

#[test]
fn a_render_wait_resolves_on_the_next_frame() {
    let mut runtime: Runtime<&str, Delta> = Runtime::new();
    let task = runtime.spawn(ScopeId::root(), 1, "animation");
    let mut render = RenderFuture::new();
    let poll = runtime.next_poll();
    assert!(!render.poll(&mut runtime, task, poll));
    assert!(runtime.needs_tick());
    assert_eq!(runtime.begin_frame(0), [task]);
    let poll = runtime.next_poll();
    assert!(render.poll(&mut runtime, task, poll));
    assert!(!runtime.needs_tick());
    let poll = runtime.next_poll();
    assert!(!render.poll(&mut runtime, task, poll));
}

#[test]
fn a_render_wait_that_lost_a_selection_hands_its_frame_to_the_next() {
    let mut runtime: Runtime<&str, Delta> = Runtime::new();
    let task = runtime.spawn(ScopeId::root(), 1, "surface");
    let first = runtime.next_poll();
    let mut losing = RenderFuture::new();
    assert!(!losing.poll(&mut runtime, task, first));
    runtime.keep_waits_from(task, first);
    runtime.begin_frame(0);

    // The next poll's event wins, and the loop starts a fresh render wait in the same poll.
    let second = runtime.next_poll();
    let mut fresh = RenderFuture::new();
    assert!(fresh.poll(&mut runtime, task, second), "the frame that began meanwhile was lost");
}

#[test]
fn a_frame_wait_its_task_stopped_polling_stops_requesting_frames() {
    let mut runtime: Runtime<&str, Delta> = Runtime::new();
    let task = runtime.spawn(ScopeId::root(), 1, "surface");
    // The component selects between a grab and a frame, preferring the grab.
    let first = runtime.next_poll();
    let mut grabbed = EventFuture::new(1, Events::Grabbed);
    let mut render = RenderFuture::new();
    assert_eq!(grabbed.poll(&mut runtime, task, first), None);
    assert!(!render.poll(&mut runtime, task, first));
    runtime.keep_waits_from(task, first);
    assert_eq!(runtime.next_tick(5), Some(5), "a pending frame wait did not request a frame");

    // The grab wins the selection, and the task then waits for events alone.
    assert_eq!(runtime.push_event(event(1, Events::Grabbed)), [task]);
    let second = runtime.next_poll();
    assert!(grabbed.poll(&mut runtime, task, second).is_some());
    let mut ended = EventFuture::new(1, Events::DragEnded);
    assert_eq!(ended.poll(&mut runtime, task, second), None);
    runtime.keep_waits_from(task, second);
    assert_eq!(runtime.next_tick(5), None, "a dropped frame wait still requests frames");
}

/// What a component that loops over `select! { dragged, frame }` holds between polls: the selection it is suspended
/// at, if any.
struct Selecting {
    pending: Option<(EventFuture, RenderFuture)>,
    events: u32,
    frames: u32,
}

impl Selecting {
    /// Runs the component for one task poll: each turn of its loop selects between the event and the frame, preferring
    /// the event, until both are pending.
    fn poll(&mut self, runtime: &mut Runtime<&str, Delta>, task: byte_engine::runtime::TaskId) {
        let poll = runtime.next_poll();
        loop {
            let (mut dragged, mut render) =
                self.pending.take().unwrap_or_else(|| (EventFuture::new(1, Events::Dragged), RenderFuture::new()));
            if dragged.poll(runtime, task, poll).is_some() {
                self.events += 1;
                continue;
            }
            if render.poll(runtime, task, poll) {
                self.frames += 1;
                continue;
            }
            self.pending = Some((dragged, render));
            break;
        }
        runtime.keep_waits_from(task, poll);
    }
}

#[test]
fn a_frame_wait_that_keeps_losing_a_selection_still_sees_every_frame() {
    let mut runtime: Runtime<&str, Delta> = Runtime::new();
    let task = runtime.spawn(ScopeId::root(), 1, "surface");
    let mut component = Selecting { pending: None, events: 0, frames: 0 };
    component.poll(&mut runtime, task);
    for step in 1..=20u64 {
        // Each frame the drag moves the surface, and its event arrives before the frame begins.
        runtime.push_event(UiEvent { target: 1, kind: Events::Dragged, delta: Some((step as f32, 0.0)), source: None });
        runtime.begin_frame(step);
        component.poll(&mut runtime, task);
    }
    assert!(component.events >= 15, "the drag did not reach the surface every frame: {}", component.events);
    assert_eq!(component.frames, 20, "continuous events starved the frame wait");
}

#[test]
fn a_frame_wait_after_idle_frames_still_waits_for_the_next_frame() {
    let mut runtime: Runtime<&str, Delta> = Runtime::new();
    let task = runtime.spawn(ScopeId::root(), 1, "surface");
    let mut ticks = 0;
    // The frame wait loses a selection to a grab and is abandoned while the task idles on events alone.
    let first = runtime.next_poll();
    let mut grabbed = EventFuture::new(1, Events::Grabbed);
    let mut losing = RenderFuture::new();
    assert_eq!(grabbed.poll(&mut runtime, task, first), None);
    assert!(!losing.poll(&mut runtime, task, first));
    runtime.keep_waits_from(task, first);

    runtime.push_event(event(1, Events::Grabbed));
    assert_eq!(runtime.begin_frame(1), [task]);
    let second = runtime.next_poll();
    assert!(grabbed.poll(&mut runtime, task, second).is_some());
    let mut ended = EventFuture::new(1, Events::DragEnded);
    assert_eq!(ended.poll(&mut runtime, task, second), None);
    runtime.keep_waits_from(task, second);
    for now in 2..12 {
        assert!(runtime.begin_frame(now).is_empty());
    }

    // The release ends the drag; the frame wait polled next counts from the frame it was first polled in.
    assert_eq!(runtime.push_event(event(1, Events::DragEnded)), [task]);
    runtime.begin_frame(12);
    let third = runtime.next_poll();
    assert!(ended.poll(&mut runtime, task, third).is_some());
    let mut next_frame = RenderFuture::new();
    if next_frame.poll(&mut runtime, task, third) {
        ticks += 1;
    }
    runtime.keep_waits_from(task, third);
    assert_eq!(ticks, 0, "a stale frame wait resolved without a new frame");
    assert_eq!(runtime.begin_frame(13), [task]);
    let fourth = runtime.next_poll();
    if next_frame.poll(&mut runtime, task, fourth) {
        ticks += 1;
    }
    assert_eq!(ticks, 1);
}

#[test]
fn a_context_read_completes_with_what_it_read() {
    let context = (3, "title");
    let mut read = With::new(|ctx: &(i32, &str)| ctx.0 * 2);
    assert_eq!(read.poll(&context), 6);
    assert!(read.read.is_none());

    let ctx = EvaluationContext::<(i32, &str)>::new_root();
    let mut title = ctx.with(|app: &(i32, &str)| app.1.len());
    assert_eq!(title.poll(&context), 5);
}
