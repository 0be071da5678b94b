//! The waits a mounted component awaits, as the decisions each poll makes.
//!
//! Each wait is polled inside its task's poll, numbered `poll`, with the task's handle. A poll either completes the
//! wait with what it waited for, or registers the wait again for this poll and stays pending; the executor parks the
//! task until a delivery wakes it. A wait its task stops polling, as the losing branch of a selection is, is dropped
//! by [`crate::runtime::Runtime::keep_waits_from`] after the poll. A completed wait stays pending forever.
use std::marker::PhantomData;

use vstd::prelude::*;

use crate::context::{slot_path, slot_path_of, ElementKey};
use crate::element::Id;
use crate::evaluation_context::{EvaluationContext, ScopeId, UiCommand};
use crate::retained_tree::RetainedTree;
use crate::primitive::{Events, Key, UiEvent, UiKeyEvent, UiTextEditEvent};
use crate::runtime::{
    edit_on, event_on, first_event, frame_wait_of, key_on, kept_frame_waits, registered, FrameWait, Runtime, TaskId,
    WaitKey,
};

verus! {

/// The `EventFuture` struct waits for the next event of one kind on one element.
#[derive(Debug, Clone, Copy, PartialEq, Eq)]
pub struct EventFuture {
    pub target: Id,
    pub kind: Events,
    pub complete: bool,
}

/// The `KeyFuture` struct waits for the next press of one key on a focused element.
#[derive(Debug, Clone, Copy, PartialEq, Eq)]
pub struct KeyFuture {
    pub target: Id,
    pub key: Key,
    pub complete: bool,
}

/// The `TextEditFuture` struct waits for the next text edit of a focused element.
#[derive(Debug, Clone, Copy, PartialEq, Eq)]
pub struct TextEditFuture {
    pub target: Id,
    pub complete: bool,
}

/// The `RenderFuture` struct resolves on the first frame that begins after it was first polled.
///
/// A wait its task stops polling before it resolves hands the frame it was counting from to the next wait its task
/// first polls in the same poll, so a component that selects over events and frames in a loop still sees every frame
/// while events keep winning.
#[derive(Debug, Clone, Copy, PartialEq, Eq)]
pub struct RenderFuture {
    /// The token and frame of this wait, set on its first poll.
    pub wait: Option<(u64, u64)>,
    pub complete: bool,
}

impl EventFuture {
    /// A wait for the next event of `kind` on `target`.
    pub fn new(target: Id, kind: Events) -> (r: Self)
        ensures
            r == (EventFuture { target, kind, complete: false }),
    {
        EventFuture { target, kind, complete: false }
    }

    /// Polls the wait in the poll numbered `poll` of the task `task`: takes the first such event delivered to the
    /// task, or registers the wait for this poll and stays pending.
    pub fn poll<F, V: Copy>(&mut self, runtime: &mut Runtime<F, V>, task: TaskId, poll: u64) -> (r: Option<UiEvent<V>>)
        ensures
            old(self).complete ==> r is None && *final(self) == *old(self) && *final(runtime) == *old(runtime),
            !old(self).complete ==> {
                &&& final(self).target == old(self).target
                &&& final(self).kind == old(self).kind
                &&& final(self).complete == r is Some
                &&& final(runtime).only_slot_changed_or_token(old(runtime), task.index as int)
                &&& final(runtime).next_frame_token_view() == old(runtime).next_frame_token_view()
                &&& match old(runtime).task_view(task) {
                    Some(t) => match first_event(t.inbox@, event_on::<V>(old(self).target, old(self).kind)) {
                        Some(i) => r == Some(t.inbox@[i]) && (final(runtime).task_view(task) matches Some(u) && u.inbox@
                            == t.inbox@.remove(i) && u.waits == t.waits && u.key_inbox == t.key_inbox
                            && u.text_edit_inbox == t.text_edit_inbox && u.frame_waits == t.frame_waits
                            && u.future == t.future && u.owner == t.owner && u.path == t.path),
                        None => r is None && (final(runtime).task_view(task) matches Some(u) && u.waits@ == registered(
                            t.waits@,
                            WaitKey::Event(old(self).target, old(self).kind),
                            poll,
                        ) && u.inbox@ == t.inbox@ && u.key_inbox == t.key_inbox && u.text_edit_inbox == t.text_edit_inbox
                            && u.frame_waits == t.frame_waits && u.future == t.future && u.owner == t.owner && u.path
                            == t.path),
                    },
                    None => r is None && final(runtime).task_view(task) is None,
                }
            },
    {
        if self.complete {
            return None;
        }
        match runtime.take_event(task, self.target, self.kind) {
            Some(event) => {
                self.complete = true;
                Some(event)
            },
            None => {
                runtime.wait_for(task, WaitKey::Event(self.target, self.kind), poll);
                None
            },
        }
    }
}

impl KeyFuture {
    /// A wait for the next press of `key` on `target`.
    pub fn new(target: Id, key: Key) -> (r: Self)
        ensures
            r == (KeyFuture { target, key, complete: false }),
    {
        KeyFuture { target, key, complete: false }
    }

    /// Polls the wait in the poll numbered `poll` of the task `task`: takes the first such press delivered to the
    /// task, or registers the wait for this poll and stays pending.
    pub fn poll<F, V: Copy>(&mut self, runtime: &mut Runtime<F, V>, task: TaskId, poll: u64) -> (r: Option<UiKeyEvent>)
        ensures
            old(self).complete ==> r is None && *final(self) == *old(self) && *final(runtime) == *old(runtime),
            !old(self).complete ==> {
                &&& final(self).target == old(self).target
                &&& final(self).key == old(self).key
                &&& final(self).complete == r is Some
                &&& final(runtime).only_slot_changed_or_token(old(runtime), task.index as int)
                &&& final(runtime).next_frame_token_view() == old(runtime).next_frame_token_view()
                &&& match old(runtime).task_view(task) {
                    Some(t) => match first_event(t.key_inbox@, key_on(old(self).target, old(self).key)) {
                        Some(i) => r == Some(t.key_inbox@[i]) && (final(runtime).task_view(task) matches Some(u)
                            && u.key_inbox@ == t.key_inbox@.remove(i) && u.waits == t.waits && u.inbox == t.inbox
                            && u.text_edit_inbox == t.text_edit_inbox && u.frame_waits == t.frame_waits
                            && u.future == t.future && u.owner == t.owner && u.path == t.path),
                        None => r is None && (final(runtime).task_view(task) matches Some(u) && u.waits@ == registered(
                            t.waits@,
                            WaitKey::Key(old(self).target, old(self).key),
                            poll,
                        ) && u.inbox == t.inbox && u.key_inbox@ == t.key_inbox@ && u.text_edit_inbox == t.text_edit_inbox
                            && u.frame_waits == t.frame_waits && u.future == t.future && u.owner == t.owner && u.path
                            == t.path),
                    },
                    None => r is None && final(runtime).task_view(task) is None,
                }
            },
    {
        if self.complete {
            return None;
        }
        match runtime.take_key_event(task, self.target, self.key) {
            Some(event) => {
                self.complete = true;
                Some(event)
            },
            None => {
                runtime.wait_for(task, WaitKey::Key(self.target, self.key), poll);
                None
            },
        }
    }
}

impl TextEditFuture {
    /// A wait for the next text edit of `target`.
    pub fn new(target: Id) -> (r: Self)
        ensures
            r == (TextEditFuture { target, complete: false }),
    {
        TextEditFuture { target, complete: false }
    }

    /// Polls the wait in the poll numbered `poll` of the task `task`: takes the first edit of the target delivered to
    /// the task, or registers the wait for this poll and stays pending.
    pub fn poll<F, V: Copy>(&mut self, runtime: &mut Runtime<F, V>, task: TaskId, poll: u64) -> (r: Option<
        UiTextEditEvent,
    >)
        ensures
            old(self).complete ==> r is None && *final(self) == *old(self) && *final(runtime) == *old(runtime),
            !old(self).complete ==> {
                &&& final(self).target == old(self).target
                &&& final(self).complete == r is Some
                &&& final(runtime).only_slot_changed_or_token(old(runtime), task.index as int)
                &&& final(runtime).next_frame_token_view() == old(runtime).next_frame_token_view()
                &&& match old(runtime).task_view(task) {
                    Some(t) => match first_event(t.text_edit_inbox@, edit_on(old(self).target)) {
                        Some(i) => r == Some(t.text_edit_inbox@[i]) && (final(runtime).task_view(task) matches Some(u)
                            && u.text_edit_inbox@ == t.text_edit_inbox@.remove(i) && u.waits == t.waits && u.inbox
                            == t.inbox && u.key_inbox == t.key_inbox && u.frame_waits == t.frame_waits && u.future
                            == t.future && u.owner == t.owner && u.path == t.path),
                        None => r is None && (final(runtime).task_view(task) matches Some(u) && u.waits@ == registered(
                            t.waits@,
                            WaitKey::TextEdit(old(self).target),
                            poll,
                        ) && u.inbox == t.inbox && u.key_inbox == t.key_inbox && u.text_edit_inbox@ == t.text_edit_inbox@
                            && u.frame_waits == t.frame_waits && u.future == t.future && u.owner == t.owner && u.path
                            == t.path),
                    },
                    None => r is None && final(runtime).task_view(task) is None,
                }
            },
    {
        if self.complete {
            return None;
        }
        match runtime.take_text_edit_event(task, self.target) {
            Some(event) => {
                self.complete = true;
                Some(event)
            },
            None => {
                runtime.wait_for(task, WaitKey::TextEdit(self.target), poll);
                None
            },
        }
    }
}

/// Every frame wait `kept_frame_waits` keeps passes its test.
proof fn lemma_kept_frame_waits_pass(waits: Seq<FrameWait>, keep: spec_fn(FrameWait) -> bool)
    ensures
        forall|k: int|
            0 <= k < kept_frame_waits(waits, keep).len() ==> keep(#[trigger] kept_frame_waits(waits, keep)[k]),
    decreases waits.len(),
{
    if waits.len() > 0 {
        lemma_kept_frame_waits_pass(waits.drop_last(), keep);
        let kept = kept_frame_waits(waits, keep);
        let rest = kept_frame_waits(waits.drop_last(), keep);
        assert forall|k: int| 0 <= k < kept.len() implies keep(#[trigger] kept[k]) by {
            if k < rest.len() {
                assert(kept[k] == rest[k]);
            }
        }
    }
}

/// When `waits` holds the frame wait `token`, there is a first position that holds it.
proof fn lemma_first_frame_wait(waits: Seq<FrameWait>, token: u64)
    requires
        exists|k: int| 0 <= k < waits.len() && waits[k].token == token,
    ensures
        exists|i: int|
            0 <= i < waits.len() && waits[i].token == token && forall|m: int| 0 <= m < i ==> waits[m].token != token,
    decreases waits.len(),
{
    let rest = waits.drop_last();
    if exists|k: int| 0 <= k < rest.len() && rest[k].token == token {
        lemma_first_frame_wait(rest, token);
        let i = choose|i: int|
            0 <= i < rest.len() && rest[i].token == token && forall|m: int| 0 <= m < i ==> rest[m].token != token;
        assert(waits[i].token == token);
        assert forall|m: int| 0 <= m < i implies waits[m].token != token by {
            assert(waits[m] == rest[m]);
        }
    } else {
        let i = waits.len() - 1;
        assert forall|m: int| 0 <= m < i implies waits[m].token != token by {
            assert(waits[m] == rest[m]);
        }
        let k = choose|k: int| 0 <= k < waits.len() && waits[k].token == token;
        if k < i {
            assert(rest[k].token == token);
        }
        assert(waits[i].token == token);
    }
}

/// Whether `waits` holds the frame wait `token`, registered for the poll numbered `poll`.
pub open spec fn holds_frame_wait(waits: Seq<FrameWait>, token: u64, poll: u64) -> bool {
    exists|i: int| 0 <= i < waits.len() && waits[i].token == token && waits[i].polled == poll
}

/// Whether `waits` holds no frame wait `token`.
pub open spec fn lacks_frame_wait(waits: Seq<FrameWait>, token: u64) -> bool {
    forall|i: int| 0 <= i < waits.len() ==> waits[i].token != token
}

impl RenderFuture {
    /// A wait for the next frame, not polled yet.
    pub fn new() -> (r: Self)
        ensures
            r == (RenderFuture { wait: None, complete: false }),
    {
        RenderFuture { wait: None, complete: false }
    }

    /// Polls the wait in the poll numbered `poll` of the task `task` and reports whether it resolved.
    ///
    /// Its first poll starts a frame wait and keeps the token and frame it got. It resolves, and ends its frame wait,
    /// once the current frame is later than that frame; until then each poll registers the frame wait for this poll.
    pub fn poll<F, V: Copy>(&mut self, runtime: &mut Runtime<F, V>, task: TaskId, poll: u64) -> (ready: bool)
        requires
            !old(self).complete && old(self).wait is None ==> old(runtime).next_frame_token_view() < u64::MAX,
        ensures
            old(self).complete ==> !ready && *final(self) == *old(self) && *final(runtime) == *old(runtime),
            !old(self).complete ==> {
                &&& final(self).wait is Some
                &&& old(self).wait is Some ==> final(self).wait == old(self).wait
                &&& old(self).wait is None ==> final(self).wait.unwrap().0 == old(runtime).next_frame_token_view() + 1
                &&& ready == (final(self).wait.unwrap().1 < old(runtime).frame_view())
                &&& final(self).complete == ready
                &&& final(runtime).only_slot_changed_or_token(old(runtime), task.index as int)
                &&& match old(runtime).task_view(task) {
                    Some(t) => final(runtime).task_view(task) matches Some(u) && (if ready {
                        lacks_frame_wait(u.frame_waits@, final(self).wait.unwrap().0)
                    } else {
                        holds_frame_wait(u.frame_waits@, final(self).wait.unwrap().0, poll)
                    }) && u.future == t.future && u.owner == t.owner && u.path == t.path && u.inbox == t.inbox
                        && u.key_inbox == t.key_inbox && u.text_edit_inbox == t.text_edit_inbox && u.waits == t.waits,
                    None => final(runtime).task_view(task) is None,
                }
            },
    {
        if self.complete {
            return false;
        }
        let (token, seen) = match self.wait {
            Some(wait) => wait,
            None => {
                let wait = runtime.start_frame_wait(task, poll);
                self.wait = Some(wait);
                wait
            },
        };
        let ghost mid = runtime.task_view(task);
        if seen < runtime.frame() {
            runtime.end_frame_wait(task, token);
            self.complete = true;
            proof {
                match mid {
                    Some(m) => {
                        let u = runtime.task_view(task)->0;
                        lemma_kept_frame_waits_pass(m.frame_waits@, |w: FrameWait| w.token != token);
                        assert forall|i: int| 0 <= i < u.frame_waits@.len() implies u.frame_waits@[i].token != token by {
                            assert((|w: FrameWait| w.token != token)(u.frame_waits@[i]));
                        }
                    },
                    None => {},
                }
            }
            return true;
        }
        runtime.keep_frame_wait(task, token, seen, poll);
        proof {
            match mid {
                Some(m) => {
                    let u = runtime.task_view(task)->0;
                    match frame_wait_of(m.frame_waits@, token) {
                        Some(i) => {
                            let waits = m.frame_waits@;
                            assert(exists|k: int| 0 <= k < waits.len() && waits[k].token == token);
                            lemma_first_frame_wait(waits, token);
                            assert(0 <= i < waits.len() && waits[i].token == token);
                            assert(u.frame_waits@ == waits.update(i, FrameWait { polled: poll, ..waits[i] }));
                            assert(u.frame_waits@[i].token == token && u.frame_waits@[i].polled == poll);
                        },
                        None => {
                            assert(u.frame_waits@[m.frame_waits@.len() as int].token == token);
                        },
                    }
                },
                None => {},
            }
        }
        false
    }
}

/// The `With` struct reads the engine's application context `C` while its task is polled. It completes on its first
/// poll with what its read returned.
pub struct With<C, F> {
    pub read: Option<F>,
    pub ctx: PhantomData<C>,
}

impl<C, F> With<C, F> {
    /// A read of the application context by `read`.
    pub fn new(read: F) -> (r: Self)
        ensures
            r.read == Some(read),
    {
        With { read: Some(read), ctx: PhantomData }
    }

    /// Completes the read on `ctx`. A read completes once, so it is polled only while it holds its read.
    pub fn poll<T>(&mut self, ctx: &C) -> (r: T)
        where
            F: FnOnce(&C) -> T,
        requires
            old(self).read matches Some(read) && read.requires((ctx,)),
        ensures
            old(self).read matches Some(read) && read.ensures((ctx,), r),
            final(self).read is None,
    {
        let read = self.read.take().unwrap();
        read(ctx)
    }
}

/// The `MountedComponentFuture` struct runs a component inside the awaiting task and removes its scope when it ends.
///
/// Its first poll starts the component with [`MountedComponentFuture::start`], and the caller drives the future the
/// component returns. When that future completes ([`MountedComponentFuture::finish`]), or this value is dropped before
/// it does ([`MountedComponentFuture::drop`]), the command that removes the scope's elements and tasks is handed back,
/// once. A completed value stays pending forever.
pub struct MountedComponentFuture<F, C> {
    /// The component, until the first poll starts it.
    pub component: Option<F>,
    /// The id and attach target of the context the scope was declared from, which the scope's context inherits.
    pub id: Id,
    pub parent: Option<Id>,
    pub parent_path: u64,
    /// The path of the mounted scope, computed from the parent's path and the slot key.
    pub path: u64,
    /// The identity that owns the started scope's tasks, until the scope is removed.
    pub scope: Option<ScopeId>,
    pub complete: bool,
    pub ctx: PhantomData<C>,
}

/// The command that removes the mounted scope at `path` owned by `scope`, if one was started and is not removed yet.
pub open spec fn scope_removal(path: u64, scope: Option<ScopeId>) -> Option<UiCommand> {
    match scope {
        Some(owner) => Some(UiCommand::Remove { path, owner: Some(owner) }),
        None => None,
    }
}

impl<F, C> MountedComponentFuture<F, C> {
    /// The value after its component's future completed.
    pub open spec fn finished(self) -> Self {
        MountedComponentFuture { scope: None, complete: true, ..self }
    }

    /// What dropping the value removes: the scope it started, unless its component completed.
    pub open spec fn drop_removal(self) -> Option<UiCommand> {
        if self.complete {
            None
        } else {
            scope_removal(self.path, self.scope)
        }
    }

    /// Takes the started scope and returns the command that removes its elements and ends the tasks it owns.
    fn cleanup_scope(&mut self) -> (r: Option<UiCommand>)
        ensures
            r == scope_removal(old(self).path, old(self).scope),
            *final(self) == (MountedComponentFuture { scope: None, ..*old(self) }),
    {
        match self.scope.take() {
            Some(owner) => Some(UiCommand::Remove { path: self.path, owner: Some(owner) }),
            None => None,
        }
    }

    /// Starts the scope on the first poll: takes a scope identity from the runtime, records that the scope was declared
    /// in `parent_path`, and returns the component with the context it runs on. Later polls start nothing.
    pub fn start<G, V: Copy, P>(&mut self, runtime: &mut Runtime<G, V>, tree: &mut RetainedTree<P>) -> (r: Option<
        (F, EvaluationContext<C>),
    >)
        requires
            old(tree).wf(),
            old(self).component is Some ==> old(runtime).next_scope_view() < u64::MAX,
        ensures
            final(tree).wf(),
            match old(self).component {
                Some(component) => {
                    let owner = ScopeId((old(runtime).next_scope_view() + 1) as u64);
                    &&& r matches Some((c, ctx)) && c == component && ctx.id == old(self).id && ctx.parent == old(
                        self,
                    ).parent && ctx.path == old(self).path && ctx.owner == owner
                    &&& *final(self) == (MountedComponentFuture { component: None, scope: Some(owner), ..*old(self) })
                    &&& final(runtime).next_scope_view() == old(runtime).next_scope_view() + 1
                    &&& final(tree).declarations_view() == old(tree).declarations_view().insert(
                        old(self).path,
                        old(self).parent_path,
                    )
                },
                None => {
                    &&& r is None
                    &&& *final(self) == *old(self)
                    &&& final(runtime).next_scope_view() == old(runtime).next_scope_view()
                    &&& final(tree).declarations_view() == old(tree).declarations_view()
                },
            },
            final(tree).elements_view() == old(tree).elements_view(),
            final(tree).relations_view() == old(tree).relations_view(),
            final(tree).revisions_view() == old(tree).revisions_view(),
            final(runtime).tasks_view() == old(runtime).tasks_view(),
            final(runtime).generations_view() == old(runtime).generations_view(),
            final(runtime).focus_view() == old(runtime).focus_view(),
            final(runtime).frame_view() == old(runtime).frame_view(),
            final(runtime).polls_view() == old(runtime).polls_view(),
    {
        match self.component.take() {
            Some(component) => {
                let owner = runtime.next_scope();
                let ctx = EvaluationContext::new(self.id, self.parent, self.path, owner);
                tree.declare_scope(self.path, self.parent_path);
                self.scope = Some(owner);
                Some((component, ctx))
            },
            None => None,
        }
    }

    /// Records that the component's future completed, and returns the command that removes its scope, if it is
    /// still to be removed.
    pub fn finish(&mut self) -> (r: Option<UiCommand>)
        ensures
            r == scope_removal(old(self).path, old(self).scope),
            *final(self) == old(self).finished(),
    {
        self.complete = true;
        self.cleanup_scope()
    }

    /// What dropping the value does: unless its component completed, the component's future is gone, and the command
    /// that removes the scope it started, if any, is returned.
    pub fn drop(&mut self) -> (r: Option<UiCommand>)
        ensures
            r == old(self).drop_removal(),
            *final(self) == if old(self).complete {
                *old(self)
            } else {
                (MountedComponentFuture { scope: None, ..*old(self) })
            },
    {
        if !self.complete {
            self.cleanup_scope()
        } else {
            None
        }
    }

    /// Reports whether the component completed, after which polling stays pending.
    pub fn is_terminated(&self) -> (r: bool)
        ensures
            r == self.complete,
    {
        self.complete
    }
}

/// A started scope is removed exactly once: by the completion of its component, after which neither dropping the value
/// nor completing again removes anything, or by dropping the value before that.
pub proof fn a_started_scope_is_removed_exactly_once<F, C>(m: MountedComponentFuture<F, C>)
    requires
        m.scope is Some,
        !m.complete,
    ensures
        scope_removal(m.path, m.scope) == Some(UiCommand::Remove { path: m.path, owner: m.scope }),
        m.finished().drop_removal() is None,
        scope_removal(m.finished().path, m.finished().scope) is None,
        m.drop_removal() == scope_removal(m.path, m.scope),
{
}

/// The `ContainerContext` trait is a context whose element receives input: it makes the waits for that element's
/// events, key presses, and text edits.
pub trait ContainerContext {
    /// The element whose input this context waits for.
    spec fn input_target(&self) -> Id;

    /// A wait for the next event of `kind` on this context's element.
    fn on(&self, kind: Events) -> (r: EventFuture)
        ensures
            r == (EventFuture { target: self.input_target(), kind, complete: false }),
    ;

    /// A wait for the next press of `key` while this context's element is focused.
    fn on_key(&self, key: Key) -> (r: KeyFuture)
        ensures
            r == (KeyFuture { target: self.input_target(), key, complete: false }),
    ;

    /// A wait for the next text edit while this context's element is focused.
    fn on_text_edit(&self) -> (r: TextEditFuture)
        ensures
            r == (TextEditFuture { target: self.input_target(), complete: false }),
    ;
}

impl<C> ContainerContext for EvaluationContext<C> {
    open spec fn input_target(&self) -> Id {
        self.id
    }

    fn on(&self, kind: Events) -> (r: EventFuture) {
        EventFuture::new(self.id, kind)
    }

    fn on_key(&self, key: Key) -> (r: KeyFuture) {
        KeyFuture::new(self.id, key)
    }

    fn on_text_edit(&self) -> (r: TextEditFuture) {
        TextEditFuture::new(self.id)
    }
}

impl<C> EvaluationContext<C> {
    /// A read of the engine's application context by `read`, completed on its first poll.
    pub fn with<F>(&self, read: F) -> (r: With<C, F>)
        ensures
            r.read == Some(read),
    {
        With::new(read)
    }

    /// A wait for the next frame.
    pub fn render(&self) -> (r: RenderFuture)
        ensures
            r == (RenderFuture { wait: None, complete: false }),
    {
        RenderFuture::new()
    }

    /// Starts a component as a task of its own in the slot `key`, such as a widget that reacts to its own events, and
    /// returns its handle. The component runs on a context that declares under this context's element and keys its
    /// slots under the slot's path; `make` turns that context into the task's future. The task belongs to the enclosing
    /// mounted scope and ends when that scope is removed, or earlier when the element it was declared under is removed.
    pub fn start_component<F, V: Copy, P, M: FnOnce(EvaluationContext<C>) -> F>(
        &self,
        key: ElementKey,
        runtime: &mut Runtime<F, V>,
        tree: &mut RetainedTree<P>,
        make: M,
    ) -> (r: TaskId)
        requires
            old(tree).wf(),
            forall|c: EvaluationContext<C>| make.requires((c,)),
        ensures
            final(tree).wf(),
            final(tree).declarations_view() == old(tree).declarations_view().insert(
                slot_path_of(self.path, key@),
                self.path,
            ),
            final(tree).elements_view() == old(tree).elements_view(),
            final(tree).relations_view() == old(tree).relations_view(),
            final(tree).revisions_view() == old(tree).revisions_view(),
            old(runtime).task_view(r) is None,
            final(runtime).task_view(r) matches Some(t) && t.owner == self.owner && t.path == slot_path_of(
                self.path,
                key@,
            ) && t.waits@.len() == 0 && t.frame_waits@.len() == 0 && t.inbox@.len() == 0 && t.key_inbox@.len() == 0
                && t.text_edit_inbox@.len() == 0 && exists|c: EvaluationContext<C>|
                c.id == self.id && c.parent == self.parent && c.path == t.path && c.owner == self.owner && (t.future
                    matches Some(future) && make.ensures((c,), future)),
            final(runtime).same_counters(old(runtime)),
            forall|h: TaskId| old(runtime).task_view(h) is None && h != r ==> (#[trigger] final(runtime).task_view(h)) is None,
            forall|j: int|
                0 <= j < old(runtime).tasks_view().len() && j != r.index ==> #[trigger] final(runtime).tasks_view()[j]
                    == old(runtime).tasks_view()[j] && final(runtime).generations_view()[j]
                    == old(runtime).generations_view()[j],
    {
        let ctx = self.component(key);
        let path = ctx.path;
        tree.declare_scope(path, self.path);
        let owner = ctx.owner;
        let future = make(ctx);
        runtime.spawn(owner, path, future)
    }

    /// Runs `component` inside the awaiting task in the slot `key`, and removes its elements and tasks when it returns
    /// or the returned value is dropped. See [`MountedComponentFuture`].
    pub fn mount<F>(&self, key: ElementKey, component: F) -> (r: MountedComponentFuture<F, C>)
        ensures
            r.component == Some(component),
            r.id == self.id,
            r.parent == self.parent,
            r.parent_path == self.path,
            r.path == slot_path_of(self.path, key@),
            r.scope is None,
            !r.complete,
    {
        MountedComponentFuture {
            component: Some(component),
            id: self.id,
            parent: self.parent,
            parent_path: self.path,
            path: slot_path(self.path, key),
            scope: None,
            complete: false,
            ctx: PhantomData,
        }
    }
}

} // verus!
