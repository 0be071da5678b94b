//! Task scheduling state: the waits each mounted component's task made, the events delivered to it, and focus.
//!
//! The runtime never polls a future itself. It records what each task waits for, delivers events to the tasks that
//! wait for them, and returns the tasks a change woke, so its owner polls them.
use std::collections::HashSet;

use vstd::prelude::*;

use crate::element::Id;
use crate::engine_state::EngineState;
use crate::evaluation_context::ScopeId;
use crate::primitive::{Events, Key, UiEvent, UiKeyEvent, UiTextEditEvent};

verus! {

broadcast use vstd::std_specs::hash::group_hash_axioms;

/// What one wait of a task waits for.
#[derive(Debug, Clone, Copy, PartialEq, Eq, Structural)]
pub enum WaitKey {
    /// An event of a kind on an element.
    Event(Id, Events),
    /// A key press on a focused element.
    Key(Id, Key),
    /// A text edit of a focused element.
    TextEdit(Id),
    /// A timer that is due at a deadline, in the engine's clock ticks.
    Timer(u64),
}

/// The `Registration` struct records one wait a task's future made and the poll that last made it.
#[derive(Debug, Clone, Copy, PartialEq, Eq, Structural)]
pub struct Registration {
    pub key: WaitKey,
    /// The number of the task poll that last registered this wait.
    pub polled: u64,
}

/// The `FrameWait` struct keeps one pending render wait and the frame it counts from.
#[derive(Debug, Clone, Copy, PartialEq, Eq, Structural)]
pub struct FrameWait {
    /// Identifies the render wait that owns this entry.
    pub token: u64,
    /// The frame the wait counts from. It resolves once a later frame begins.
    pub seen: u64,
    /// The number of the task poll that last registered this wait.
    pub polled: u64,
}

/// The element a wait is addressed to, if any.
pub open spec fn wait_target(key: WaitKey) -> Option<Id> {
    match key {
        WaitKey::Event(target, _) => Some(target),
        WaitKey::Key(target, _) => Some(target),
        WaitKey::TextEdit(target) => Some(target),
        WaitKey::Timer(_) => None,
    }
}

/// The first position of a wait for `key`.
pub open spec fn first_wait(waits: Seq<Registration>, key: WaitKey) -> Option<int> {
    if exists|i: int| 0 <= i < waits.len() && waits[i].key == key {
        Some(choose|i: int| 0 <= i < waits.len() && waits[i].key == key && forall|m: int| 0 <= m < i ==> waits[m].key != key)
    } else {
        None
    }
}

/// `waits` after registering `key` in the poll numbered `poll`: an earlier wait for it is renewed, otherwise one is
/// added.
pub open spec fn registered(waits: Seq<Registration>, key: WaitKey, poll: u64) -> Seq<Registration> {
    match first_wait(waits, key) {
        Some(i) => waits.update(i, Registration { key, polled: poll }),
        None => waits.push(Registration { key, polled: poll }),
    }
}

/// The waits that `keep` keeps, in order.
pub open spec fn kept_waits(waits: Seq<Registration>, keep: spec_fn(Registration) -> bool) -> Seq<Registration>
    decreases waits.len(),
{
    if waits.len() == 0 {
        Seq::empty()
    } else {
        let rest = kept_waits(waits.drop_last(), keep);
        if keep(waits.last()) {
            rest.push(waits.last())
        } else {
            rest
        }
    }
}

/// The frame waits that `keep` keeps, in order.
pub open spec fn kept_frame_waits(waits: Seq<FrameWait>, keep: spec_fn(FrameWait) -> bool) -> Seq<FrameWait>
    decreases waits.len(),
{
    if waits.len() == 0 {
        Seq::empty()
    } else {
        let rest = kept_frame_waits(waits.drop_last(), keep);
        if keep(waits.last()) {
            rest.push(waits.last())
        } else {
            rest
        }
    }
}

/// The events that `keep` keeps, in order.
pub open spec fn kept_events<E>(events: Seq<E>, keep: spec_fn(E) -> bool) -> Seq<E>
    decreases events.len(),
{
    if events.len() == 0 {
        Seq::empty()
    } else {
        let rest = kept_events(events.drop_last(), keep);
        if keep(events.last()) {
            rest.push(events.last())
        } else {
            rest
        }
    }
}

/// Whether `waits` holds a wait for `key`.
pub open spec fn waits_for(waits: Seq<Registration>, key: WaitKey) -> bool {
    exists|i: int| 0 <= i < waits.len() && waits[i].key == key
}

/// The first position of an event `matching` accepts.
pub open spec fn first_event<E>(events: Seq<E>, matching: spec_fn(E) -> bool) -> Option<int> {
    if exists|i: int| 0 <= i < events.len() && matching(events[i]) {
        Some(choose|i: int| 0 <= i < events.len() && matching(events[i]) && forall|m: int| 0 <= m < i ==> !matching(events[m]))
    } else {
        None
    }
}

/// Whether a wait is one the poll numbered `poll` registered.
pub open spec fn polled_in(poll: u64) -> spec_fn(Registration) -> bool {
    |w: Registration| w.polled == poll
}

/// Whether a wait is not one for `key`.
pub open spec fn other_than(key: WaitKey) -> spec_fn(Registration) -> bool {
    |w: Registration| w.key != key
}

/// Whether a pointer event is one of `kind` on `target`.
pub open spec fn event_on<V>(target: Id, kind: Events) -> spec_fn(UiEvent<V>) -> bool {
    |e: UiEvent<V>| e.target == target && e.kind == kind
}

/// Whether a key event is a press of `key` on `target`.
pub open spec fn key_on(target: Id, key: Key) -> spec_fn(UiKeyEvent) -> bool {
    |e: UiKeyEvent| e.target == target && e.key == key
}

/// Whether a text edit event is addressed to `target`.
pub open spec fn edit_on(target: Id) -> spec_fn(UiTextEditEvent) -> bool {
    |e: UiTextEditEvent| e.target == target
}

/// The first position `i` with `matching(events[i])`, once every earlier event is rejected.
proof fn lemma_first_event<E>(events: Seq<E>, matching: spec_fn(E) -> bool, i: int)
    requires
        0 <= i < events.len(),
        matching(events[i]),
        forall|m: int| 0 <= m < i ==> !matching(events[m]),
    ensures
        first_event(events, matching) == Some(i),
{
    let c = choose|c: int| 0 <= c < events.len() && matching(events[c]) && forall|m: int| 0 <= m < c ==> !matching(events[m]);
    if c < i {
        assert(!matching(events[c]));
    } else if c > i {
        assert(!matching(events[i]));
    }
}

/// The first position `i` with `waits[i].key == key`, once every earlier wait differs.
proof fn lemma_first_wait(waits: Seq<Registration>, key: WaitKey, i: int)
    requires
        0 <= i < waits.len(),
        waits[i].key == key,
        forall|m: int| 0 <= m < i ==> waits[m].key != key,
    ensures
        first_wait(waits, key) == Some(i),
{
    let c = choose|c: int| 0 <= c < waits.len() && waits[c].key == key && forall|m: int| 0 <= m < c ==> waits[m].key != key;
    if c < i {
        assert(waits[c].key != key);
    } else if c > i {
        assert(waits[i].key != key);
    }
}

/// Whether `waits` holds at most one wait for each key.
pub open spec fn one_wait_per_key(waits: Seq<Registration>) -> bool {
    forall|a: int, b: int| 0 <= a < b < waits.len() ==> waits[a].key != waits[b].key
}

/// Registering a wait renews the entry an earlier poll left instead of adding a second one: a task keeps at most one
/// wait for each key, and after registering it waits for `key` as of the poll numbered `poll`.
pub proof fn registering_keeps_one_wait_per_key(waits: Seq<Registration>, key: WaitKey, poll: u64)
    requires
        one_wait_per_key(waits),
    ensures
        one_wait_per_key(registered(waits, key, poll)),
        exists|i: int|
            0 <= i < registered(waits, key, poll).len() && registered(waits, key, poll)[i] == (Registration {
                key,
                polled: poll,
            }),
        registered(waits, key, poll).len() == waits.len() + if exists|i: int| 0 <= i < waits.len() && waits[i].key == key {
            0int
        } else {
            1int
        },
{
    if exists|i: int| 0 <= i < waits.len() && waits[i].key == key {
        let i = choose|i: int| 0 <= i < waits.len() && waits[i].key == key;
        assert forall|m: int| 0 <= m < i implies waits[m].key != key by {
            assert(waits[m].key != waits[i].key);
        }
        lemma_first_wait(waits, key, i);
        let r = registered(waits, key, poll);
        assert(r[i] == Registration { key, polled: poll });
        assert forall|a: int, b: int| 0 <= a < b < r.len() implies r[a].key != r[b].key by {
            if a != i && b != i {
                assert(waits[a].key != waits[b].key);
            } else if a == i {
                assert(waits[a].key != waits[b].key);
            } else {
                assert(waits[a].key != waits[b].key);
            }
        }
    } else {
        let r = registered(waits, key, poll);
        assert(first_wait(waits, key) is None);
        assert(r[waits.len() as int] == Registration { key, polled: poll });
        assert forall|a: int, b: int| 0 <= a < b < r.len() implies r[a].key != r[b].key by {
            if b == waits.len() {
                assert(waits[a].key != key);
            }
        }
    }
}

/// Keeps the waits `keep` accepts, in order.
fn retain_waits(waits: &mut Vec<Registration>, keep: Ghost<spec_fn(Registration) -> bool>, decide: impl Fn(&Registration) -> bool)
    requires
        forall|w: Registration| #[trigger] decide.requires((&w,)),
        forall|w: Registration, r: bool| decide.ensures((&w,), r) ==> r == (keep@)(w),
    ensures
        final(waits)@ == kept_waits(old(waits)@, keep@),
{
    let mut kept: Vec<Registration> = Vec::new();
    let mut i: usize = 0;
    while i < waits.len()
        invariant
            i <= waits@.len(),
            waits@ == old(waits)@,
            kept@ == kept_waits(waits@.take(i as int), keep@),
            forall|w: Registration| #[trigger] decide.requires((&w,)),
            forall|w: Registration, r: bool| decide.ensures((&w,), r) ==> r == (keep@)(w),
        decreases waits@.len() - i,
    {
        let wait = waits[i];
        proof {
            assert(waits@.take(i + 1).drop_last() =~= waits@.take(i as int));
            assert(waits@.take(i + 1).last() == waits@[i as int]);
        }
        if decide(&wait) {
            kept.push(wait);
        }
        i = i + 1;
    }
    proof {
        assert(waits@.take(waits@.len() as int) =~= waits@);
    }
    *waits = kept;
}


/// Keeps the frame waits `keep` accepts, in order.
fn retain_frame_waits(waits: &mut Vec<FrameWait>, keep: Ghost<spec_fn(FrameWait) -> bool>, decide: impl Fn(&FrameWait) -> bool)
    requires
        forall|w: FrameWait| #[trigger] decide.requires((&w,)),
        forall|w: FrameWait, r: bool| decide.ensures((&w,), r) ==> r == (keep@)(w),
    ensures
        final(waits)@ == kept_frame_waits(old(waits)@, keep@),
{
    let mut kept: Vec<FrameWait> = Vec::new();
    let mut i: usize = 0;
    while i < waits.len()
        invariant
            i <= waits@.len(),
            waits@ == old(waits)@,
            kept@ == kept_frame_waits(waits@.take(i as int), keep@),
            forall|w: FrameWait| #[trigger] decide.requires((&w,)),
            forall|w: FrameWait, r: bool| decide.ensures((&w,), r) ==> r == (keep@)(w),
        decreases waits@.len() - i,
    {
        let wait = waits[i];
        proof {
            assert(waits@.take(i + 1).drop_last() =~= waits@.take(i as int));
            assert(waits@.take(i + 1).last() == waits@[i as int]);
        }
        if decide(&wait) {
            kept.push(wait);
        }
        i = i + 1;
    }
    proof {
        assert(waits@.take(waits@.len() as int) =~= waits@);
    }
    *waits = kept;
}

/// Keeps the events `keep` accepts, in order.
fn retain_events<E: Copy>(events: &mut Vec<E>, keep: Ghost<spec_fn(E) -> bool>, decide: impl Fn(&E) -> bool)
    requires
        forall|e: E| #[trigger] decide.requires((&e,)),
        forall|e: E, r: bool| decide.ensures((&e,), r) ==> r == (keep@)(e),
    ensures
        final(events)@ == kept_events(old(events)@, keep@),
{
    let mut kept: Vec<E> = Vec::new();
    let mut i: usize = 0;
    while i < events.len()
        invariant
            i <= events@.len(),
            events@ == old(events)@,
            kept@ == kept_events(events@.take(i as int), keep@),
            forall|e: E| #[trigger] decide.requires((&e,)),
            forall|e: E, r: bool| decide.ensures((&e,), r) ==> r == (keep@)(e),
        decreases events@.len() - i,
    {
        let event = events[i];
        proof {
            assert(events@.take(i + 1).drop_last() =~= events@.take(i as int));
            assert(events@.take(i + 1).last() == events@[i as int]);
        }
        if decide(&event) {
            kept.push(event);
        }
        i = i + 1;
    }
    proof {
        assert(events@.take(events@.len() as int) =~= events@);
    }
    *events = kept;
}

/// Whether a wait stays when the elements `targets` are deleted: timers stay, and waits addressed to them go.
pub open spec fn outside_targets(targets: Set<Id>) -> spec_fn(Registration) -> bool {
    |w: Registration| match wait_target(w.key) {
        Some(target) => !targets.contains(target),
        None => true,
    }
}

/// Whether a timer wait is due at `now`.
pub open spec fn pending_at(now: u64) -> spec_fn(Registration) -> bool {
    |w: Registration| match w.key {
        WaitKey::Timer(deadline) => deadline > now,
        _ => true,
    }
}

/// The `UiTask` struct is one spawned component: its future while it runs, and everything it waits for and was
/// delivered.
///
/// The task owns the waits its futures registered. A wait stays registered only while the task keeps polling the
/// future that made it: after each poll, [`UiTask::keep_waits_from`] drops the waits that poll did not register
/// again.
pub struct UiTask<F, V> {
    /// Empty while the task is being polled.
    pub future: Option<F>,
    pub owner: ScopeId,
    /// The path the task was declared at, so removing an element it was declared under ends it.
    pub path: u64,
    pub inbox: Vec<UiEvent<V>>,
    pub key_inbox: Vec<UiKeyEvent>,
    pub text_edit_inbox: Vec<UiTextEditEvent>,
    pub frame_waits: Vec<FrameWait>,
    pub waits: Vec<Registration>,
}

impl<F, V: Copy> UiTask<F, V> {
    /// Starts a task with no waits and nothing delivered.
    pub fn new(owner: ScopeId, path: u64, future: F) -> (r: Self)
        ensures
            r.future == Some(future),
            r.owner == owner,
            r.path == path,
            r.inbox@.len() == 0,
            r.key_inbox@.len() == 0,
            r.text_edit_inbox@.len() == 0,
            r.frame_waits@.len() == 0,
            r.waits@.len() == 0,
    {
        UiTask {
            future: Some(future),
            owner,
            path,
            inbox: Vec::new(),
            key_inbox: Vec::new(),
            text_edit_inbox: Vec::new(),
            frame_waits: Vec::new(),
            waits: Vec::new(),
        }
    }

    /// Registers `key` for the poll numbered `poll`, reusing the entry an earlier poll left.
    pub fn register(&mut self, key: WaitKey, poll: u64)
        ensures
            final(self).waits@ == registered(old(self).waits@, key, poll),
            final(self).future == old(self).future,
            final(self).owner == old(self).owner,
            final(self).path == old(self).path,
            final(self).inbox == old(self).inbox,
            final(self).key_inbox == old(self).key_inbox,
            final(self).text_edit_inbox == old(self).text_edit_inbox,
            final(self).frame_waits == old(self).frame_waits,
    {
        let mut i: usize = 0;
        while i < self.waits.len()
            invariant
                i <= self.waits@.len(),
                *self == *old(self),
                forall|m: int| 0 <= m < i ==> self.waits@[m].key != key,
            decreases self.waits@.len() - i,
        {
            if self.waits[i].key == key {
                proof {
                    lemma_first_wait(self.waits@, key, i as int);
                }
                self.waits.set(i, Registration { key, polled: poll });
                return;
            }
            i = i + 1;
        }
        self.waits.push(Registration { key, polled: poll });
    }

    /// Drops every wait the poll numbered `poll` did not register again.
    ///
    /// A future that its task stopped polling, such as the losing branch of a selection, was dropped or put aside, so
    /// its wait must not deliver input or keep the engine ticking.
    pub fn keep_waits_from(&mut self, poll: u64)
        ensures
            final(self).waits@ == kept_waits(old(self).waits@, polled_in(poll)),
            final(self).frame_waits@ == kept_frame_waits(old(self).frame_waits@, |w: FrameWait| w.polled == poll),
            final(self).future == old(self).future,
            final(self).owner == old(self).owner,
            final(self).path == old(self).path,
            final(self).inbox == old(self).inbox,
            final(self).key_inbox == old(self).key_inbox,
            final(self).text_edit_inbox == old(self).text_edit_inbox,
    {
        retain_frame_waits(&mut self.frame_waits, Ghost(|w: FrameWait| w.polled == poll), |w: &FrameWait| -> (r: bool)
            ensures
                r == (w.polled == poll),
            { w.polled == poll });
        retain_waits(&mut self.waits, Ghost(polled_in(poll)), |w: &Registration| -> (r: bool)
            ensures
                r == (w.polled == poll),
            { w.polled == poll });
    }

    /// Removes every wait for `key` and reports whether there was one.
    pub fn remove_waits(&mut self, key: WaitKey) -> (r: bool)
        ensures
            r == waits_for(old(self).waits@, key),
            final(self).waits@ == kept_waits(old(self).waits@, other_than(key)),
            final(self).future == old(self).future,
            final(self).owner == old(self).owner,
            final(self).path == old(self).path,
            final(self).inbox == old(self).inbox,
            final(self).key_inbox == old(self).key_inbox,
            final(self).text_edit_inbox == old(self).text_edit_inbox,
            final(self).frame_waits == old(self).frame_waits,
    {
        let mut found = false;
        let mut i: usize = 0;
        while i < self.waits.len()
            invariant
                i <= self.waits@.len(),
                *self == *old(self),
                found == exists|m: int| 0 <= m < i && self.waits@[m].key == key,
            decreases self.waits@.len() - i,
        {
            if self.waits[i].key == key {
                found = true;
            }
            i = i + 1;
        }
        retain_waits(&mut self.waits, Ghost(other_than(key)), |w: &Registration| -> (r: bool)
            ensures
                r == (w.key != key),
            { w.key != key });
        found
    }

    /// Takes the first delivered event of `kind` on `target`.
    pub fn take_event(&mut self, target: Id, kind: Events) -> (r: Option<UiEvent<V>>)
        ensures
            ({
                let matching = event_on::<V>(target, kind);
                match first_event(old(self).inbox@, matching) {
                    Some(i) => r == Some(old(self).inbox@[i]) && final(self).inbox@ == old(self).inbox@.remove(i),
                    None => r is None && final(self).inbox@ == old(self).inbox@,
                }
            }),
            final(self).future == old(self).future,
            final(self).owner == old(self).owner,
            final(self).path == old(self).path,
            final(self).key_inbox == old(self).key_inbox,
            final(self).text_edit_inbox == old(self).text_edit_inbox,
            final(self).frame_waits == old(self).frame_waits,
            final(self).waits == old(self).waits,
    {
        let ghost matching = event_on::<V>(target, kind);
        let mut i: usize = 0;
        while i < self.inbox.len()
            invariant
                i <= self.inbox@.len(),
                *self == *old(self),
                matching == event_on::<V>(target, kind),
                forall|m: int| 0 <= m < i ==> !matching(self.inbox@[m]),
            decreases self.inbox@.len() - i,
        {
            if self.inbox[i].target == target && self.inbox[i].kind == kind {
                proof {
                    lemma_first_event(self.inbox@, matching, i as int);
                }
                return Some(self.inbox.remove(i));
            }
            i = i + 1;
        }
        None
    }

    /// Takes the first delivered press of `key` on `target`.
    pub fn take_key_event(&mut self, target: Id, key: Key) -> (r: Option<UiKeyEvent>)
        ensures
            ({
                let matching = key_on(target, key);
                match first_event(old(self).key_inbox@, matching) {
                    Some(i) => r == Some(old(self).key_inbox@[i]) && final(self).key_inbox@ == old(self).key_inbox@.remove(i),
                    None => r is None && final(self).key_inbox@ == old(self).key_inbox@,
                }
            }),
            final(self).future == old(self).future,
            final(self).owner == old(self).owner,
            final(self).path == old(self).path,
            final(self).inbox == old(self).inbox,
            final(self).text_edit_inbox == old(self).text_edit_inbox,
            final(self).frame_waits == old(self).frame_waits,
            final(self).waits == old(self).waits,
    {
        let ghost matching = key_on(target, key);
        let mut i: usize = 0;
        while i < self.key_inbox.len()
            invariant
                i <= self.key_inbox@.len(),
                *self == *old(self),
                matching == key_on(target, key),
                forall|m: int| 0 <= m < i ==> !matching(self.key_inbox@[m]),
            decreases self.key_inbox@.len() - i,
        {
            if self.key_inbox[i].target == target && self.key_inbox[i].key == key {
                proof {
                    lemma_first_event(self.key_inbox@, matching, i as int);
                }
                return Some(self.key_inbox.remove(i));
            }
            i = i + 1;
        }
        None
    }

    /// Takes the first delivered text edit on `target`.
    pub fn take_text_edit_event(&mut self, target: Id) -> (r: Option<UiTextEditEvent>)
        ensures
            ({
                let matching = edit_on(target);
                match first_event(old(self).text_edit_inbox@, matching) {
                    Some(i) => r == Some(old(self).text_edit_inbox@[i]) && final(self).text_edit_inbox@
                        == old(self).text_edit_inbox@.remove(i),
                    None => r is None && final(self).text_edit_inbox@ == old(self).text_edit_inbox@,
                }
            }),
            final(self).future == old(self).future,
            final(self).owner == old(self).owner,
            final(self).path == old(self).path,
            final(self).inbox == old(self).inbox,
            final(self).key_inbox == old(self).key_inbox,
            final(self).frame_waits == old(self).frame_waits,
            final(self).waits == old(self).waits,
    {
        let ghost matching = edit_on(target);
        let mut i: usize = 0;
        while i < self.text_edit_inbox.len()
            invariant
                i <= self.text_edit_inbox@.len(),
                *self == *old(self),
                matching == edit_on(target),
                forall|m: int| 0 <= m < i ==> !matching(self.text_edit_inbox@[m]),
            decreases self.text_edit_inbox@.len() - i,
        {
            if self.text_edit_inbox[i].target == target {
                proof {
                    lemma_first_event(self.text_edit_inbox@, matching, i as int);
                }
                return Some(self.text_edit_inbox.remove(i));
            }
            i = i + 1;
        }
        None
    }
}


/// The frame wait a new render wait of the poll numbered `poll` takes over: among the waits that poll has not
/// registered, the first one counting from the earliest frame.
pub open spec fn oldest_unpolled(waits: Seq<FrameWait>, poll: u64) -> Option<int> {
    if exists|i: int| 0 <= i < waits.len() && waits[i].polled != poll {
        Some(
            choose|i: int|
                0 <= i < waits.len() && waits[i].polled != poll && (forall|m: int|
                    0 <= m < waits.len() && waits[m].polled != poll ==> waits[m].seen >= waits[i].seen) && (forall|m: int|
                    0 <= m < i && waits[m].polled != poll ==> waits[m].seen > waits[i].seen),
        )
    } else {
        None
    }
}

/// The first position of the frame wait `token`.
pub open spec fn frame_wait_of(waits: Seq<FrameWait>, token: u64) -> Option<int> {
    if exists|i: int| 0 <= i < waits.len() && waits[i].token == token {
        Some(choose|i: int| 0 <= i < waits.len() && waits[i].token == token && forall|m: int| 0 <= m < i ==> waits[m].token != token)
    } else {
        None
    }
}

impl<F, V: Copy> UiTask<F, V> {
    /// Starts a frame wait for a render wait polled for the first time in the poll numbered `poll`, and returns the
    /// frame it counts from.
    ///
    /// The wait takes over the frame of a wait the task has not polled in this poll yet, which is most often one it
    /// dropped, and that wait goes. Frames that began while it was pending then still count. Otherwise it counts from
    /// `frame`.
    pub fn start_frame_wait(&mut self, poll: u64, frame: u64) -> (seen: u64)
        ensures
            match oldest_unpolled(old(self).frame_waits@, poll) {
                Some(i) => seen == old(self).frame_waits@[i].seen && final(self).frame_waits@ == old(self).frame_waits@.update(
                    i,
                    old(self).frame_waits@.last(),
                ).drop_last(),
                None => seen == frame && final(self).frame_waits@ == old(self).frame_waits@,
            },
            final(self).future == old(self).future,
            final(self).owner == old(self).owner,
            final(self).path == old(self).path,
            final(self).inbox == old(self).inbox,
            final(self).key_inbox == old(self).key_inbox,
            final(self).text_edit_inbox == old(self).text_edit_inbox,
            final(self).waits == old(self).waits,
    {
        let ghost waits = self.frame_waits@;
        let mut best: Option<usize> = None;
        let mut i: usize = 0;
        while i < self.frame_waits.len()
            invariant
                *self == *old(self),
                waits == self.frame_waits@,
                i <= waits.len(),
                match best {
                    Some(b) => b < i && waits[b as int].polled != poll && (forall|m: int|
                        0 <= m < i && waits[m].polled != poll ==> waits[m].seen >= waits[b as int].seen) && (forall|m: int|
                        0 <= m < b && waits[m].polled != poll ==> waits[m].seen > waits[b as int].seen),
                    None => forall|m: int| 0 <= m < i ==> waits[m].polled == poll,
                },
            decreases waits.len() - i,
        {
            let wait = self.frame_waits[i];
            if wait.polled != poll {
                match best {
                    Some(b) => {
                        if wait.seen < self.frame_waits[b].seen {
                            best = Some(i);
                        }
                    },
                    None => {
                        best = Some(i);
                    },
                }
            }
            i = i + 1;
        }
        match best {
            Some(b) => {
                proof {
                    let c = oldest_unpolled(waits, poll).unwrap();
                    assert(oldest_unpolled(waits, poll) is Some);
                    if c < b {
                        assert(waits[c].seen >= waits[b as int].seen);
                        assert(waits[c].seen > waits[b as int].seen);
                    } else if c > b {
                        assert(waits[b as int].seen >= waits[c].seen);
                    }
                }
                let wait = self.frame_waits.swap_remove(b);
                wait.seen
            },
            None => frame,
        }
    }

    /// Keeps the frame wait `token` registered for the poll numbered `poll`, adding it when it is new.
    pub fn keep_frame_wait(&mut self, token: u64, seen: u64, poll: u64)
        ensures
            final(self).frame_waits@ == match frame_wait_of(old(self).frame_waits@, token) {
                Some(i) => old(self).frame_waits@.update(i, FrameWait { polled: poll, ..old(self).frame_waits@[i] }),
                None => old(self).frame_waits@.push(FrameWait { token, seen, polled: poll }),
            },
            final(self).future == old(self).future,
            final(self).owner == old(self).owner,
            final(self).path == old(self).path,
            final(self).inbox == old(self).inbox,
            final(self).key_inbox == old(self).key_inbox,
            final(self).text_edit_inbox == old(self).text_edit_inbox,
            final(self).waits == old(self).waits,
    {
        let mut i: usize = 0;
        while i < self.frame_waits.len()
            invariant
                i <= self.frame_waits@.len(),
                *self == *old(self),
                forall|m: int| 0 <= m < i ==> self.frame_waits@[m].token != token,
            decreases self.frame_waits@.len() - i,
        {
            let wait = self.frame_waits[i];
            if wait.token == token {
                proof {
                    let c = frame_wait_of(self.frame_waits@, token).unwrap();
                    assert(frame_wait_of(self.frame_waits@, token) is Some);
                    if c < i {
                        assert(self.frame_waits@[c].token != token);
                    } else if c > i {
                        assert(self.frame_waits@[i as int].token != token);
                    }
                }
                self.frame_waits.set(i, FrameWait { token: wait.token, seen: wait.seen, polled: poll });
                return;
            }
            i = i + 1;
        }
        self.frame_waits.push(FrameWait { token, seen, polled: poll });
    }

    /// Removes the frame wait `token` once its render wait resolved.
    pub fn end_frame_wait(&mut self, token: u64)
        ensures
            final(self).frame_waits@ == kept_frame_waits(old(self).frame_waits@, |w: FrameWait| w.token != token),
            final(self).future == old(self).future,
            final(self).owner == old(self).owner,
            final(self).path == old(self).path,
            final(self).inbox == old(self).inbox,
            final(self).key_inbox == old(self).key_inbox,
            final(self).text_edit_inbox == old(self).text_edit_inbox,
            final(self).waits == old(self).waits,
    {
        retain_frame_waits(&mut self.frame_waits, Ghost(|w: FrameWait| w.token != token), |w: &FrameWait| -> (r: bool)
                ensures
                    r == (w.token != token),
                { w.token != token });
    }

    /// Removes the waits and the delivered input addressed to the deleted elements `targets`.
    pub fn remove_targets(&mut self, targets: &HashSet<Id>)
        ensures
            final(self).waits@ == kept_waits(old(self).waits@, outside_targets(targets@)),
            final(self).inbox@ == kept_events(old(self).inbox@, |e: UiEvent<V>| !targets@.contains(e.target)),
            final(self).key_inbox@ == kept_events(old(self).key_inbox@, |e: UiKeyEvent| !targets@.contains(e.target)),
            final(self).text_edit_inbox@ == kept_events(
                old(self).text_edit_inbox@,
                |e: UiTextEditEvent| !targets@.contains(e.target),
            ),
            final(self).future == old(self).future,
            final(self).owner == old(self).owner,
            final(self).path == old(self).path,
            final(self).frame_waits == old(self).frame_waits,
    {
        retain_waits(&mut self.waits, Ghost(outside_targets(targets@)), |w: &Registration| -> (r: bool)
                ensures
                    r == (outside_targets(targets@))(*w),
                {
                    match w.key {
                        WaitKey::Event(target, _) => !targets.contains(&target),
                        WaitKey::Key(target, _) => !targets.contains(&target),
                        WaitKey::TextEdit(target) => !targets.contains(&target),
                        WaitKey::Timer(_) => true,
                    }
                });
        retain_events(&mut self.inbox, Ghost(|e: UiEvent<V>| !targets@.contains(e.target)), |e: &UiEvent<V>| -> (r: bool)
                ensures
                    r == !targets@.contains(e.target),
                { !targets.contains(&e.target) });
        retain_events(&mut self.key_inbox, Ghost(|e: UiKeyEvent| !targets@.contains(e.target)), |e: &UiKeyEvent| -> (r: bool)
            ensures
                r == !targets@.contains(e.target),
            { !targets.contains(&e.target) });
        retain_events(&mut self.text_edit_inbox, Ghost(|e: UiTextEditEvent| !targets@.contains(e.target)), |e: &UiTextEditEvent| -> (r: bool)
                ensures
                    r == !targets@.contains(e.target),
                { !targets.contains(&e.target) });
    }

    /// Drops the timers due at `now` and reports whether there were any.
    pub fn wake_due_timers(&mut self, now: u64) -> (woken: bool)
        ensures
            final(self).waits@ == kept_waits(old(self).waits@, pending_at(now)),
            woken == (final(self).waits@.len() != old(self).waits@.len()),
            final(self).future == old(self).future,
            final(self).owner == old(self).owner,
            final(self).path == old(self).path,
            final(self).inbox == old(self).inbox,
            final(self).key_inbox == old(self).key_inbox,
            final(self).text_edit_inbox == old(self).text_edit_inbox,
            final(self).frame_waits == old(self).frame_waits,
    {
        let waiting = self.waits.len();
        retain_waits(&mut self.waits, Ghost(pending_at(now)), |w: &Registration| -> (r: bool)
                ensures
                    r == (pending_at(now))(*w),
                {
                    match w.key {
                        WaitKey::Timer(deadline) => deadline > now,
                        _ => true,
                    }
                });
        self.waits.len() != waiting
    }

    /// Returns the soonest deadline of the task's timers.
    pub fn next_deadline(&self) -> (r: Option<u64>)
        ensures
            match r {
                Some(d) => (exists|i: int| 0 <= i < self.waits@.len() && self.waits@[i].key == WaitKey::Timer(d)) && forall|
                    i: int,
                |
                    0 <= i < self.waits@.len() ==> match #[trigger] self.waits@[i].key {
                        WaitKey::Timer(e) => d <= e,
                        _ => true,
                    },
                None => forall|i: int| 0 <= i < self.waits@.len() ==> !(#[trigger] self.waits@[i].key is Timer),
            },
    {
        let mut earliest: Option<u64> = None;
        let mut i: usize = 0;
        while i < self.waits.len()
            invariant
                i <= self.waits@.len(),
                match earliest {
                    Some(d) => (exists|j: int| 0 <= j < i && self.waits@[j].key == WaitKey::Timer(d)) && forall|j: int|
                        0 <= j < i ==> match #[trigger] self.waits@[j].key {
                            WaitKey::Timer(e) => d <= e,
                            _ => true,
                        },
                    None => forall|j: int| 0 <= j < i ==> !(#[trigger] self.waits@[j].key is Timer),
                },
            decreases self.waits@.len() - i,
        {
            match self.waits[i].key {
                WaitKey::Timer(deadline) => {
                    match earliest {
                        Some(d) => {
                            if deadline < d {
                                earliest = Some(deadline);
                            }
                        },
                        None => {
                            earliest = Some(deadline);
                        },
                    }
                },
                _ => {},
            }
            i = i + 1;
        }
        earliest
    }
}


/// The `TaskId` struct is a handle to one task. Slots are reused, so a handle from a removed task finds nothing
/// instead of its successor.
#[derive(Debug, Clone, Copy, PartialEq, Eq, Structural)]
pub struct TaskId {
    pub index: usize,
    pub generation: u64,
}

/// One input delivered to the tasks that wait for it.
#[derive(Debug, Clone, Copy)]
pub enum Delivery<V> {
    Event(UiEvent<V>),
    Key(UiKeyEvent),
    TextEdit(UiTextEditEvent),
}

/// The wait a delivery ends.
pub open spec fn delivery_key<V>(delivery: Delivery<V>) -> WaitKey {
    match delivery {
        Delivery::Event(e) => WaitKey::Event(e.target, e.kind),
        Delivery::Key(e) => WaitKey::Key(e.target, e.key),
        Delivery::TextEdit(e) => WaitKey::TextEdit(e.target),
    }
}

/// Whether `after` is `before` once `delivery` reached it: a task that waits for it loses those waits and finds the
/// input in its inbox; any other task is unchanged.
pub open spec fn delivered<F, V>(before: UiTask<F, V>, after: UiTask<F, V>, delivery: Delivery<V>) -> bool {
    let key = delivery_key(delivery);
    let waiting = waits_for(before.waits@, key);
    &&& after.future == before.future
    &&& after.owner == before.owner
    &&& after.path == before.path
    &&& after.frame_waits == before.frame_waits
    &&& after.waits@ == if waiting {
        kept_waits(before.waits@, other_than(key))
    } else {
        before.waits@
    }
    &&& after.inbox@ == match delivery {
        Delivery::Event(e) => if waiting {
            before.inbox@.push(e)
        } else {
            before.inbox@
        },
        _ => before.inbox@,
    }
    &&& after.key_inbox@ == match delivery {
        Delivery::Key(e) => if waiting {
            before.key_inbox@.push(e)
        } else {
            before.key_inbox@
        },
        _ => before.key_inbox@,
    }
    &&& after.text_edit_inbox@ == match delivery {
        Delivery::TextEdit(e) => if waiting {
            before.text_edit_inbox@.push(e)
        } else {
            before.text_edit_inbox@
        },
        _ => before.text_edit_inbox@,
    }
}

/// The handles of the live tasks among `tasks` that `selected` accepts, in slot order.
pub open spec fn selected_tasks<F, V>(
    tasks: Seq<Option<UiTask<F, V>>>,
    generations: Seq<u64>,
    selected: spec_fn(UiTask<F, V>) -> bool,
) -> Seq<TaskId>
    decreases tasks.len(),
{
    if tasks.len() == 0 {
        Seq::empty()
    } else {
        let rest = selected_tasks(tasks.drop_last(), generations, selected);
        let i = tasks.len() - 1;
        match tasks.last() {
            Some(t) => if selected(t) {
                rest.push(TaskId { index: i as usize, generation: generations[i] })
            } else {
                rest
            },
            None => rest,
        }
    }
}

/// `stack` without any occurrence of `id`.
pub open spec fn without_focus(stack: Seq<Id>, id: Id) -> Seq<Id> {
    crate::retained_tree::without_id(stack, id)
}

/// Whether `after` is `before` with its waits and delivered input addressed to `targets` dropped.
pub open spec fn without_targets<F, V>(before: UiTask<F, V>, after: UiTask<F, V>, targets: Set<Id>) -> bool {
    &&& after.waits@ == kept_waits(before.waits@, outside_targets(targets))
    &&& after.inbox@ == kept_events(before.inbox@, |e: UiEvent<V>| !targets.contains(e.target))
    &&& after.key_inbox@ == kept_events(before.key_inbox@, |e: UiKeyEvent| !targets.contains(e.target))
    &&& after.text_edit_inbox@ == kept_events(before.text_edit_inbox@, |e: UiTextEditEvent| !targets.contains(e.target))
    &&& after.future == before.future
    &&& after.owner == before.owner
    &&& after.path == before.path
    &&& after.frame_waits == before.frame_waits
}

/// Whether the task in one slot after a removal of `targets` is the task before it without them.
pub open spec fn slot_without_targets<F, V>(before: Option<UiTask<F, V>>, after: Option<UiTask<F, V>>, targets: Set<Id>) -> bool {
    match before {
        Some(t) => after matches Some(u) && without_targets(t, u, targets),
        None => after is None,
    }
}

/// A stack without `id` no longer holds it.
proof fn lemma_without_focus_lacks(stack: Seq<Id>, id: Id)
    ensures
        !without_focus(stack, id).contains(id),
    decreases stack.len(),
{
    if stack.len() > 0 {
        let rest = stack.drop_last();
        lemma_without_focus_lacks(rest, id);
        let w = without_focus(stack, id);
        let wr = without_focus(rest, id);
        if w.contains(id) {
            let k = choose|k: int| 0 <= k < w.len() && w[k] == id;
            if k < wr.len() {
                assert(w[k] == wr[k]);
            }
        }
    }
}

/// Requesting focus puts the target on top and nowhere else, and a second request of the same target moves it
/// without duplicating it.
pub proof fn requesting_focus_moves_the_target_on_top(stack: Seq<Id>, target: Id, other: Id)
    ensures
        without_focus(stack, target).push(target).last() == target,
        forall|k: int|
            0 <= k < without_focus(stack, target).len() ==> #[trigger] without_focus(stack, target).push(target)[k]
                != target,
        ({
            let twice = without_focus(without_focus(without_focus(stack, target).push(target), other).push(other), target).push(
                target,
            );
            twice.last() == target && forall|k: int| 0 <= k < twice.len() - 1 ==> #[trigger] twice[k] != target
        }),
{
    lemma_without_focus_lacks(stack, target);
    let once = without_focus(stack, target);
    assert forall|k: int| 0 <= k < once.len() implies #[trigger] once.push(target)[k] != target by {
        assert(once.push(target)[k] == once[k]);
    }
    let middle = without_focus(once.push(target), other).push(other);
    lemma_without_focus_lacks(middle, target);
    let twice = without_focus(middle, target).push(target);
    assert forall|k: int| 0 <= k < twice.len() - 1 implies #[trigger] twice[k] != target by {
        assert(twice[k] == without_focus(middle, target)[k]);
    }
}

/// Releasing the focus a request gave leaves the stack as the request found it without the target, so the target
/// focused before it is on top again.
pub proof fn releasing_focus_reveals_the_previous_target(stack: Seq<Id>, target: Id)
    ensures
        without_focus(without_focus(stack, target).push(target), target) == without_focus(stack, target),
        !stack.contains(target) ==> without_focus(without_focus(stack, target).push(target), target) == stack,
{
    let once = without_focus(stack, target);
    lemma_without_focus_lacks(stack, target);
    assert(once.push(target).drop_last() =~= once);
    crate::retained_tree::lemma_without_id_absent(once, target);
    if !stack.contains(target) {
        crate::retained_tree::lemma_without_id_absent(stack, target);
    }
}

/// The `TaskSlot` struct holds one task, or nothing once it ended, and how often the slot was reused.
struct TaskSlot<F, V> {
    generation: u64,
    task: Option<UiTask<F, V>>,
}

/// The `Runtime` struct keeps every spawned task, the focus stack, and the frame and poll counters.
pub struct Runtime<F, V> {
    slots: Vec<TaskSlot<F, V>>,
    next_scope: u64,
    /// Numbers task polls so a wait can tell whether the current poll registered it.
    polls: u64,
    /// Hands every render wait a distinct token.
    next_frame_token: u64,
    focus_stack: Vec<Id>,
    frame: u64,
}

impl<F, V: Copy> Runtime<F, V> {
    /// The task in each slot, in slot order.
    pub closed spec fn tasks_view(&self) -> Seq<Option<UiTask<F, V>>> {
        self.slots@.map_values(|s: TaskSlot<F, V>| s.task)
    }

    /// How often each slot was reused.
    pub closed spec fn generations_view(&self) -> Seq<u64> {
        self.slots@.map_values(|s: TaskSlot<F, V>| s.generation)
    }

    /// Each view reads its slot.
    proof fn lemma_slot_views(&self)
        ensures
            self.tasks_view().len() == self.slots@.len(),
            self.generations_view().len() == self.slots@.len(),
            forall|j: int| 0 <= j < self.slots@.len() ==> #[trigger] self.tasks_view()[j] == self.slots@[j].task,
            forall|j: int| 0 <= j < self.slots@.len() ==> #[trigger] self.generations_view()[j] == self.slots@[j].generation,
    {
    }

    /// The task `id` names, or `None` when it ended.
    pub open spec fn task_view(&self, id: TaskId) -> Option<UiTask<F, V>> {
        if id.index < self.tasks_view().len() && self.generations_view()[id.index as int] == id.generation {
            self.tasks_view()[id.index as int]
        } else {
            None
        }
    }

    /// The focus stack, most recent last.
    pub closed spec fn focus_view(&self) -> Seq<Id> {
        self.focus_stack@
    }

    pub closed spec fn frame_view(&self) -> u64 {
        self.frame
    }

    pub closed spec fn polls_view(&self) -> u64 {
        self.polls
    }

    pub closed spec fn next_scope_view(&self) -> u64 {
        self.next_scope
    }

    pub closed spec fn next_frame_token_view(&self) -> u64 {
        self.next_frame_token
    }

    /// Everything but the tasks is the same in both runtimes.
    pub open spec fn same_counters(&self, other: &Self) -> bool {
        &&& self.focus_view() == other.focus_view()
        &&& self.frame_view() == other.frame_view()
        &&& self.polls_view() == other.polls_view()
        &&& self.next_scope_view() == other.next_scope_view()
        &&& self.next_frame_token_view() == other.next_frame_token_view()
    }

    /// Creates a runtime with no tasks, no focus, and every counter at zero.
    pub fn new() -> (r: Self)
        ensures
            r.tasks_view().len() == 0,
            r.focus_view().len() == 0,
            r.frame_view() == 0,
            r.polls_view() == 0,
            r.next_scope_view() == 0,
            r.next_frame_token_view() == 0,
    {
        let r = Runtime { slots: Vec::new(), next_scope: 0, polls: 0, next_frame_token: 0, focus_stack: Vec::new(), frame: 0 };
        assert(r.tasks_view() =~= Seq::<Option<UiTask<F, V>>>::empty());
        r
    }

    /// Returns an identity for a newly mounted scope, which no earlier scope had.
    pub fn next_scope(&mut self) -> (r: ScopeId)
        requires
            old(self).next_scope_view() < u64::MAX,
        ensures
            r == ScopeId((old(self).next_scope_view() + 1) as u64),
            final(self).next_scope_view() == old(self).next_scope_view() + 1,
            final(self).tasks_view() == old(self).tasks_view(),
            final(self).generations_view() == old(self).generations_view(),
            final(self).focus_view() == old(self).focus_view(),
            final(self).frame_view() == old(self).frame_view(),
            final(self).polls_view() == old(self).polls_view(),
    {
        self.next_scope = self.next_scope + 1;
        ScopeId(self.next_scope)
    }

    /// Numbers a new task poll and returns its number.
    pub fn next_poll(&mut self) -> (r: u64)
        requires
            old(self).polls_view() < u64::MAX,
        ensures
            r == old(self).polls_view() + 1,
            final(self).polls_view() == r,
            final(self).tasks_view() == old(self).tasks_view(),
            final(self).generations_view() == old(self).generations_view(),
            final(self).focus_view() == old(self).focus_view(),
            final(self).frame_view() == old(self).frame_view(),
            final(self).next_scope_view() == old(self).next_scope_view(),
            final(self).next_frame_token_view() == old(self).next_frame_token_view(),
    {
        self.polls = self.polls + 1;
        self.polls
    }

    /// Returns the current frame.
    pub fn frame(&self) -> (r: u64)
        ensures
            r == self.frame_view(),
    {
        self.frame
    }

    /// Returns the number of task slots.
    pub fn slot_count(&self) -> (r: usize)
        ensures
            r == self.tasks_view().len(),
    {
        self.slots.len()
    }

    /// Returns the handle of the task in slot `index`, or `None` when the slot is empty.
    pub fn handle_at(&self, index: usize) -> (r: Option<TaskId>)
        ensures
            match r {
                Some(id) => id.index == index && self.task_view(id) == self.tasks_view()[index as int]
                    && self.tasks_view()[index as int] is Some,
                None => index >= self.tasks_view().len() || self.tasks_view()[index as int] is None,
            },
    {
        if index < self.slots.len() {
            match &self.slots[index].task {
                Some(_) => Some(TaskId { index, generation: self.slots[index].generation }),
                None => None,
            }
        } else {
            None
        }
    }

    /// Returns the task `id` names, or `None` when it ended.
    pub fn task(&self, id: TaskId) -> (r: Option<&UiTask<F, V>>)
        ensures
            match self.task_view(id) {
                Some(t) => r matches Some(u) && *u == t,
                None => r is None,
            },
    {
        if id.index < self.slots.len() && self.slots[id.index].generation == id.generation {
            match &self.slots[id.index].task {
                Some(task) => Some(task),
                None => None,
            }
        } else {
            None
        }
    }

    /// Takes the slot at `index` out, leaving an empty slot, so a task can be edited in place.
    fn take_slot(&mut self, index: usize) -> (r: TaskSlot<F, V>)
        requires
            index < old(self).slots@.len(),
        ensures
            r == old(self).slots@[index as int],
            final(self).slots@ == old(self).slots@.update(index as int, TaskSlot { generation: 0, task: None }),
            final(self).same_counters(old(self)),
    {
        let mut slot = TaskSlot { generation: 0, task: None };
        std::mem::swap(&mut slot, &mut self.slots[index]);
        slot
    }

    /// Puts a slot back at `index`.
    fn put_slot(&mut self, index: usize, slot: TaskSlot<F, V>)
        requires
            index < old(self).slots@.len(),
        ensures
            final(self).slots@ == old(self).slots@.update(index as int, slot),
            final(self).same_counters(old(self)),
    {
        let mut slot = slot;
        std::mem::swap(&mut slot, &mut self.slots[index]);
    }
}


impl<F, V: Copy> Runtime<F, V> {
    /// Whether `after` holds the same tasks as `before` except possibly in slot `index`, with the same generations and
    /// counters.
    pub open spec fn only_slot_changed(&self, before: &Self, index: int) -> bool {
        &&& self.tasks_view().len() == before.tasks_view().len()
        &&& self.generations_view() == before.generations_view()
        &&& self.same_counters(before)
        &&& forall|j: int| 0 <= j < self.tasks_view().len() && j != index ==> #[trigger] self.tasks_view()[j] == before.tasks_view()[j]
    }

    /// Starts a task owned by `owner` and declared at `path`, in the first empty slot or a new one, and returns its
    /// handle. The caller schedules its first poll.
    pub fn spawn(&mut self, owner: ScopeId, path: u64, future: F) -> (r: TaskId)
        ensures
            final(self).task_view(r) matches Some(t) && t.future == Some(future) && t.owner == owner && t.path == path
                && t.inbox@.len() == 0 && t.key_inbox@.len() == 0 && t.text_edit_inbox@.len() == 0
                && t.frame_waits@.len() == 0 && t.waits@.len() == 0,
            old(self).task_view(r) is None,
            r.index < old(self).tasks_view().len() ==> r.generation == old(self).generations_view()[r.index as int] + 1,
            forall|h: TaskId| old(self).task_view(h) is None && h != r ==> (#[trigger] final(self).task_view(h)) is None,
            final(self).same_counters(old(self)),
            final(self).tasks_view().len() >= old(self).tasks_view().len(),
            forall|j: int|
                0 <= j < old(self).tasks_view().len() && j != r.index ==> #[trigger] final(self).tasks_view()[j]
                    == old(self).tasks_view()[j] && final(self).generations_view()[j] == old(self).generations_view()[j],
    {
        let task = UiTask::new(owner, path, future);
        let mut i: usize = 0;
        while i < self.slots.len()
            invariant
                i <= self.slots@.len(),
                *self == *old(self),
                task.future == Some(future),
                task.owner == owner,
                task.path == path,
                task.inbox@.len() == 0,
                task.key_inbox@.len() == 0,
                task.text_edit_inbox@.len() == 0,
                task.frame_waits@.len() == 0,
                task.waits@.len() == 0,
                forall|m: int| 0 <= m < i ==> self.slots@[m].task is Some || self.slots@[m].generation == u64::MAX,
            decreases self.slots@.len() - i,
        {
            if self.slots[i].task.is_none() && self.slots[i].generation < u64::MAX {
                let generation = self.slots[i].generation + 1;
                self.put_slot(i, TaskSlot { generation, task: Some(task) });
                proof {
                    self.lemma_slot_views();
                    old(self).lemma_slot_views();
                    assert(self.tasks_view()[i as int] == Some(task));
                    assert(self.generations_view()[i as int] == generation);
                    assert(old(self).generations_view()[i as int] == generation - 1);
                }
                return TaskId { index: i, generation };
            }
            i = i + 1;
        }
        self.slots.push(TaskSlot { generation: 0, task: Some(task) });
        proof {
            assert(self.tasks_view()[i as int] == self.slots@[i as int].task);
            assert forall|j: int| 0 <= j < old(self).tasks_view().len() && j != i implies #[trigger] self.tasks_view()[j]
                == old(self).tasks_view()[j] && self.generations_view()[j] == old(self).generations_view()[j] by {
                assert(self.slots@[j] == old(self).slots@[j]);
            }
        }
        TaskId { index: i, generation: 0 }
    }

    /// Ends the task `id` and returns it, so its future is dropped by the caller.
    pub fn remove(&mut self, id: TaskId) -> (r: Option<UiTask<F, V>>)
        ensures
            r == old(self).task_view(id),
            final(self).task_view(id) is None,
            final(self).only_slot_changed(old(self), id.index as int),
    {
        if id.index < self.slots.len() && self.slots[id.index].generation == id.generation {
            let slot = self.take_slot(id.index);
            self.put_slot(id.index, TaskSlot { generation: slot.generation, task: None });
            proof {
                assert(self.tasks_view()[id.index as int] == self.slots@[id.index as int].task);
                assert(old(self).tasks_view()[id.index as int] == old(self).slots@[id.index as int].task);
                assert forall|j: int| 0 <= j < self.tasks_view().len() && j != id.index implies #[trigger] self.tasks_view()[j]
                    == old(self).tasks_view()[j] by {
                    assert(self.slots@[j] == old(self).slots@[j]);
                }
                assert(self.generations_view() =~= old(self).generations_view());
            }
            slot.task
        } else {
            None
        }
    }

    /// Takes the future of the task `id` out to poll it.
    pub fn take_future(&mut self, id: TaskId) -> (r: Option<F>)
        ensures
            match old(self).task_view(id) {
                Some(t) => r == t.future && (final(self).task_view(id) matches Some(u) && u.future is None
                    && u.owner == t.owner && u.path == t.path && u.waits == t.waits && u.frame_waits == t.frame_waits
                    && u.inbox == t.inbox && u.key_inbox == t.key_inbox && u.text_edit_inbox == t.text_edit_inbox),
                None => r is None && final(self).task_view(id) is None,
            },
            final(self).only_slot_changed(old(self), id.index as int),
    {
        if id.index < self.slots.len() && self.slots[id.index].generation == id.generation {
            let slot = self.take_slot(id.index);
            let generation = slot.generation;
            match slot.task {
                Some(mut task) => {
                    let future = task.future.take();
                    self.put_slot(id.index, TaskSlot { generation, task: Some(task) });
                    proof {
                        assert(self.tasks_view()[id.index as int] == self.slots@[id.index as int].task);
                        assert(old(self).tasks_view()[id.index as int] == old(self).slots@[id.index as int].task);
                        assert forall|j: int| 0 <= j < self.tasks_view().len() && j != id.index implies #[trigger] self.tasks_view()[j]
                            == old(self).tasks_view()[j] by {
                            assert(self.slots@[j] == old(self).slots@[j]);
                        }
                        assert(self.generations_view() =~= old(self).generations_view());
                    }
                    future
                },
                None => {
                    self.put_slot(id.index, TaskSlot { generation, task: None });
                    proof {
                        assert(self.slots@ =~= old(self).slots@);
                    }
                    None
                },
            }
        } else {
            None
        }
    }

    /// Puts the future of the task `id` back after a poll that left it pending.
    pub fn put_future(&mut self, id: TaskId, future: F)
        ensures
            match old(self).task_view(id) {
                Some(t) => final(self).task_view(id) matches Some(u) && u.future == Some(future) && u.owner == t.owner
                    && u.path == t.path && u.waits == t.waits && u.frame_waits == t.frame_waits && u.inbox == t.inbox
                    && u.key_inbox == t.key_inbox && u.text_edit_inbox == t.text_edit_inbox,
                None => final(self).task_view(id) is None,
            },
            final(self).only_slot_changed(old(self), id.index as int),
    {
        if id.index < self.slots.len() && self.slots[id.index].generation == id.generation {
            let slot = self.take_slot(id.index);
            let generation = slot.generation;
            match slot.task {
                Some(mut task) => {
                    task.future = Some(future);
                    self.put_slot(id.index, TaskSlot { generation, task: Some(task) });
                    proof {
                        assert(self.tasks_view()[id.index as int] == self.slots@[id.index as int].task);
                        assert(old(self).tasks_view()[id.index as int] == old(self).slots@[id.index as int].task);
                        assert forall|j: int| 0 <= j < self.tasks_view().len() && j != id.index implies #[trigger] self.tasks_view()[j]
                            == old(self).tasks_view()[j] by {
                            assert(self.slots@[j] == old(self).slots@[j]);
                        }
                        assert(self.generations_view() =~= old(self).generations_view());
                    }
                },
                None => {
                    self.put_slot(id.index, TaskSlot { generation, task: None });
                    proof {
                        assert(self.slots@ =~= old(self).slots@);
                    }
                },
            }
        }
    }
}


impl<F, V: Copy> Runtime<F, V> {
    /// Registers the wait `key` of the task `id` for the poll numbered `poll`.
    pub fn wait_for(&mut self, id: TaskId, key: WaitKey, poll: u64)
        ensures
            match old(self).task_view(id) {
                Some(t) => final(self).task_view(id) matches Some(u) && u.waits@ == registered(t.waits@, key, poll) && u.future == t.future && u.owner == t.owner && u.path == t.path && u.inbox == t.inbox && u.key_inbox == t.key_inbox && u.text_edit_inbox == t.text_edit_inbox && u.frame_waits == t.frame_waits,
                None => final(self).task_view(id) is None,
            },
            final(self).only_slot_changed(old(self), id.index as int),
    {
        if id.index < self.slots.len() && self.slots[id.index].generation == id.generation {
            let slot = self.take_slot(id.index);
            let generation = slot.generation;
            match slot.task {
                Some(mut task) => {
                    task.register(key, poll);
                    self.put_slot(id.index, TaskSlot { generation, task: Some(task) });
                    proof {
                        assert(self.tasks_view()[id.index as int] == self.slots@[id.index as int].task);
                        assert(old(self).tasks_view()[id.index as int] == old(self).slots@[id.index as int].task);
                        assert forall|j: int| 0 <= j < self.tasks_view().len() && j != id.index implies #[trigger] self.tasks_view()[j]
                            == old(self).tasks_view()[j] by {
                            assert(self.slots@[j] == old(self).slots@[j]);
                        }
                        assert(self.generations_view() =~= old(self).generations_view());
                    }
                },
                None => {
                    self.put_slot(id.index, TaskSlot { generation, task: None });
                    proof {
                        assert(self.slots@ =~= old(self).slots@);
                    }
                },
            }
        }
    }

    /// Drops every wait of the task `id` that the poll numbered `poll` did not register again.
    pub fn keep_waits_from(&mut self, id: TaskId, poll: u64)
        ensures
            match old(self).task_view(id) {
                Some(t) => final(self).task_view(id) matches Some(u) && u.waits@ == kept_waits(t.waits@, polled_in(poll)) && u.frame_waits@ == kept_frame_waits(t.frame_waits@, |w: FrameWait| w.polled == poll) && u.future == t.future && u.owner == t.owner && u.path == t.path && u.inbox == t.inbox && u.key_inbox == t.key_inbox && u.text_edit_inbox == t.text_edit_inbox,
                None => final(self).task_view(id) is None,
            },
            final(self).only_slot_changed(old(self), id.index as int),
    {
        if id.index < self.slots.len() && self.slots[id.index].generation == id.generation {
            let slot = self.take_slot(id.index);
            let generation = slot.generation;
            match slot.task {
                Some(mut task) => {
                    task.keep_waits_from(poll);
                    self.put_slot(id.index, TaskSlot { generation, task: Some(task) });
                    proof {
                        assert(self.tasks_view()[id.index as int] == self.slots@[id.index as int].task);
                        assert(old(self).tasks_view()[id.index as int] == old(self).slots@[id.index as int].task);
                        assert forall|j: int| 0 <= j < self.tasks_view().len() && j != id.index implies #[trigger] self.tasks_view()[j]
                            == old(self).tasks_view()[j] by {
                            assert(self.slots@[j] == old(self).slots@[j]);
                        }
                        assert(self.generations_view() =~= old(self).generations_view());
                    }
                },
                None => {
                    self.put_slot(id.index, TaskSlot { generation, task: None });
                    proof {
                        assert(self.slots@ =~= old(self).slots@);
                    }
                },
            }
        }
    }

    /// Starts the next poll of the task `id`: numbers the poll and takes the task's future out for the caller to poll.
    /// A removed task, or one whose future is out already, is not polled, though the poll is still numbered.
    pub fn start_poll(&mut self, id: TaskId) -> (r: Option<(F, u64)>)
        requires
            old(self).polls_view() < u64::MAX,
        ensures
            final(self).polls_view() == old(self).polls_view() + 1,
            match old(self).task_view(id) {
                Some(t) => match t.future {
                    Some(future) => r == Some((future, (old(self).polls_view() + 1) as u64)) && final(self).task_view(id)
                        == Some(UiTask { future: None, ..t }),
                    None => r is None && final(self).task_view(id) == Some(t),
                },
                None => r is None && final(self).task_view(id) is None,
            },
            final(self).tasks_view().len() == old(self).tasks_view().len(),
            final(self).generations_view() == old(self).generations_view(),
            final(self).focus_view() == old(self).focus_view(),
            final(self).frame_view() == old(self).frame_view(),
            final(self).next_scope_view() == old(self).next_scope_view(),
            final(self).next_frame_token_view() == old(self).next_frame_token_view(),
            forall|j: int|
                0 <= j < final(self).tasks_view().len() && j != id.index ==> #[trigger] final(self).tasks_view()[j]
                    == old(self).tasks_view()[j],
    {
        let poll = self.next_poll();
        match self.take_future(id) {
            Some(future) => Some((future, poll)),
            None => None,
        }
    }

    /// Ends the poll numbered `poll` of the task `id`. A task whose future completed, with `pending` empty, is removed
    /// and returned so the caller drops it; a pending one keeps only the waits that poll registered and gets its
    /// future back.
    pub fn finish_poll(&mut self, id: TaskId, poll: u64, pending: Option<F>) -> (r: Option<UiTask<F, V>>)
        ensures
            match pending {
                None => r == old(self).task_view(id) && final(self).task_view(id) is None,
                Some(future) => r is None && match old(self).task_view(id) {
                    Some(t) => final(self).task_view(id) matches Some(u) && u == (UiTask {
                        future: Some(future),
                        waits: u.waits,
                        frame_waits: u.frame_waits,
                        ..t
                    }) && u.waits@ == kept_waits(t.waits@, polled_in(poll)) && u.frame_waits@ == kept_frame_waits(
                        t.frame_waits@,
                        |w: FrameWait| w.polled == poll,
                    ),
                    None => final(self).task_view(id) is None,
                },
            },
            final(self).only_slot_changed(old(self), id.index as int),
    {
        match pending {
            Some(future) => {
                self.keep_waits_from(id, poll);
                self.put_future(id, future);
                None
            },
            None => self.remove(id),
        }
    }

    /// Keeps the frame wait `token` of the task `id` registered for the poll numbered `poll`.
    pub fn keep_frame_wait(&mut self, id: TaskId, token: u64, seen: u64, poll: u64)
        ensures
            match old(self).task_view(id) {
                Some(t) => final(self).task_view(id) matches Some(u) && u.frame_waits@ == match frame_wait_of(t.frame_waits@, token) { Some(i) => t.frame_waits@.update(i, FrameWait { polled: poll, ..t.frame_waits@[i] }), None => t.frame_waits@.push(FrameWait { token, seen, polled: poll }) } && u.future == t.future && u.owner == t.owner && u.path == t.path && u.inbox == t.inbox && u.key_inbox == t.key_inbox && u.text_edit_inbox == t.text_edit_inbox && u.waits == t.waits,
                None => final(self).task_view(id) is None,
            },
            final(self).only_slot_changed(old(self), id.index as int),
    {
        if id.index < self.slots.len() && self.slots[id.index].generation == id.generation {
            let slot = self.take_slot(id.index);
            let generation = slot.generation;
            match slot.task {
                Some(mut task) => {
                    task.keep_frame_wait(token, seen, poll);
                    self.put_slot(id.index, TaskSlot { generation, task: Some(task) });
                    proof {
                        assert(self.tasks_view()[id.index as int] == self.slots@[id.index as int].task);
                        assert(old(self).tasks_view()[id.index as int] == old(self).slots@[id.index as int].task);
                        assert forall|j: int| 0 <= j < self.tasks_view().len() && j != id.index implies #[trigger] self.tasks_view()[j]
                            == old(self).tasks_view()[j] by {
                            assert(self.slots@[j] == old(self).slots@[j]);
                        }
                        assert(self.generations_view() =~= old(self).generations_view());
                    }
                },
                None => {
                    self.put_slot(id.index, TaskSlot { generation, task: None });
                    proof {
                        assert(self.slots@ =~= old(self).slots@);
                    }
                },
            }
        }
    }

    /// Removes the frame wait `token` of the task `id` once its render wait resolved.
    pub fn end_frame_wait(&mut self, id: TaskId, token: u64)
        ensures
            match old(self).task_view(id) {
                Some(t) => final(self).task_view(id) matches Some(u) && u.frame_waits@ == kept_frame_waits(t.frame_waits@, |w: FrameWait| w.token != token) && u.future == t.future && u.owner == t.owner && u.path == t.path && u.inbox == t.inbox && u.key_inbox == t.key_inbox && u.text_edit_inbox == t.text_edit_inbox && u.waits == t.waits,
                None => final(self).task_view(id) is None,
            },
            final(self).only_slot_changed(old(self), id.index as int),
    {
        if id.index < self.slots.len() && self.slots[id.index].generation == id.generation {
            let slot = self.take_slot(id.index);
            let generation = slot.generation;
            match slot.task {
                Some(mut task) => {
                    task.end_frame_wait(token);
                    self.put_slot(id.index, TaskSlot { generation, task: Some(task) });
                    proof {
                        assert(self.tasks_view()[id.index as int] == self.slots@[id.index as int].task);
                        assert(old(self).tasks_view()[id.index as int] == old(self).slots@[id.index as int].task);
                        assert forall|j: int| 0 <= j < self.tasks_view().len() && j != id.index implies #[trigger] self.tasks_view()[j]
                            == old(self).tasks_view()[j] by {
                            assert(self.slots@[j] == old(self).slots@[j]);
                        }
                        assert(self.generations_view() =~= old(self).generations_view());
                    }
                },
                None => {
                    self.put_slot(id.index, TaskSlot { generation, task: None });
                    proof {
                        assert(self.slots@ =~= old(self).slots@);
                    }
                },
            }
        }
    }

}


impl<F, V: Copy> Runtime<F, V> {
    /// Whether `after` holds the same tasks as `before` except possibly in slot `index`, with the same generations and
    /// counters but for the render wait token.
    pub open spec fn only_slot_changed_or_token(&self, before: &Self, index: int) -> bool {
        &&& self.tasks_view().len() == before.tasks_view().len()
        &&& self.generations_view() == before.generations_view()
        &&& self.focus_view() == before.focus_view()
        &&& self.frame_view() == before.frame_view()
        &&& self.polls_view() == before.polls_view()
        &&& self.next_scope_view() == before.next_scope_view()
        &&& forall|j: int| 0 <= j < self.tasks_view().len() && j != index ==> #[trigger] self.tasks_view()[j] == before.tasks_view()[j]
    }

    /// Takes the first event of `kind` on `target` delivered to the task `id`.
    pub fn take_event(&mut self, id: TaskId, target: Id, kind: Events) -> (r: Option<UiEvent<V>>)
        ensures
            match old(self).task_view(id) {
                Some(t) => final(self).task_view(id) matches Some(u) && (match first_event(t.inbox@, event_on::<V>(target, kind)) { Some(i) => r == Some(t.inbox@[i]) && u.inbox@ == t.inbox@.remove(i), None => r is None && u.inbox@ == t.inbox@ }) && u.key_inbox == t.key_inbox && u.text_edit_inbox == t.text_edit_inbox && u.future == t.future && u.owner == t.owner && u.path == t.path && u.frame_waits == t.frame_waits && u.waits == t.waits,
                None => final(self).task_view(id) is None && r is None,
            },
            final(self).next_frame_token_view() == old(self).next_frame_token_view(),
            final(self).only_slot_changed_or_token(old(self), id.index as int),
    {
        if id.index < self.slots.len() && self.slots[id.index].generation == id.generation {
            let slot = self.take_slot(id.index);
            let generation = slot.generation;
            match slot.task {
                Some(mut task) => {
                    let r = task.take_event(target, kind);
                    self.put_slot(id.index, TaskSlot { generation, task: Some(task) });
                    proof {
                        assert(self.tasks_view()[id.index as int] == self.slots@[id.index as int].task);
                        assert(old(self).tasks_view()[id.index as int] == old(self).slots@[id.index as int].task);
                        assert forall|j: int| 0 <= j < self.tasks_view().len() && j != id.index implies #[trigger] self.tasks_view()[j]
                            == old(self).tasks_view()[j] by {
                            assert(self.slots@[j] == old(self).slots@[j]);
                        }
                        assert(self.generations_view() =~= old(self).generations_view());
                    }
                    r
                },
                None => {
                    self.put_slot(id.index, TaskSlot { generation, task: None });
                    proof {
                        assert(self.slots@ =~= old(self).slots@);
                    }
                    None
                },
            }
        } else {
            None
        }
    }

    /// Takes the first press of `key` on `target` delivered to the task `id`.
    pub fn take_key_event(&mut self, id: TaskId, target: Id, key: Key) -> (r: Option<UiKeyEvent>)
        ensures
            match old(self).task_view(id) {
                Some(t) => final(self).task_view(id) matches Some(u) && (match first_event(t.key_inbox@, key_on(target, key)) { Some(i) => r == Some(t.key_inbox@[i]) && u.key_inbox@ == t.key_inbox@.remove(i), None => r is None && u.key_inbox@ == t.key_inbox@ }) && u.inbox == t.inbox && u.text_edit_inbox == t.text_edit_inbox && u.future == t.future && u.owner == t.owner && u.path == t.path && u.frame_waits == t.frame_waits && u.waits == t.waits,
                None => final(self).task_view(id) is None && r is None,
            },
            final(self).next_frame_token_view() == old(self).next_frame_token_view(),
            final(self).only_slot_changed_or_token(old(self), id.index as int),
    {
        if id.index < self.slots.len() && self.slots[id.index].generation == id.generation {
            let slot = self.take_slot(id.index);
            let generation = slot.generation;
            match slot.task {
                Some(mut task) => {
                    let r = task.take_key_event(target, key);
                    self.put_slot(id.index, TaskSlot { generation, task: Some(task) });
                    proof {
                        assert(self.tasks_view()[id.index as int] == self.slots@[id.index as int].task);
                        assert(old(self).tasks_view()[id.index as int] == old(self).slots@[id.index as int].task);
                        assert forall|j: int| 0 <= j < self.tasks_view().len() && j != id.index implies #[trigger] self.tasks_view()[j]
                            == old(self).tasks_view()[j] by {
                            assert(self.slots@[j] == old(self).slots@[j]);
                        }
                        assert(self.generations_view() =~= old(self).generations_view());
                    }
                    r
                },
                None => {
                    self.put_slot(id.index, TaskSlot { generation, task: None });
                    proof {
                        assert(self.slots@ =~= old(self).slots@);
                    }
                    None
                },
            }
        } else {
            None
        }
    }

    /// Takes the first text edit on `target` delivered to the task `id`.
    pub fn take_text_edit_event(&mut self, id: TaskId, target: Id) -> (r: Option<UiTextEditEvent>)
        ensures
            match old(self).task_view(id) {
                Some(t) => final(self).task_view(id) matches Some(u) && (match first_event(t.text_edit_inbox@, edit_on(target)) { Some(i) => r == Some(t.text_edit_inbox@[i]) && u.text_edit_inbox@ == t.text_edit_inbox@.remove(i), None => r is None && u.text_edit_inbox@ == t.text_edit_inbox@ }) && u.inbox == t.inbox && u.key_inbox == t.key_inbox && u.future == t.future && u.owner == t.owner && u.path == t.path && u.frame_waits == t.frame_waits && u.waits == t.waits,
                None => final(self).task_view(id) is None && r is None,
            },
            final(self).next_frame_token_view() == old(self).next_frame_token_view(),
            final(self).only_slot_changed_or_token(old(self), id.index as int),
    {
        if id.index < self.slots.len() && self.slots[id.index].generation == id.generation {
            let slot = self.take_slot(id.index);
            let generation = slot.generation;
            match slot.task {
                Some(mut task) => {
                    let r = task.take_text_edit_event(target);
                    self.put_slot(id.index, TaskSlot { generation, task: Some(task) });
                    proof {
                        assert(self.tasks_view()[id.index as int] == self.slots@[id.index as int].task);
                        assert(old(self).tasks_view()[id.index as int] == old(self).slots@[id.index as int].task);
                        assert forall|j: int| 0 <= j < self.tasks_view().len() && j != id.index implies #[trigger] self.tasks_view()[j]
                            == old(self).tasks_view()[j] by {
                            assert(self.slots@[j] == old(self).slots@[j]);
                        }
                        assert(self.generations_view() =~= old(self).generations_view());
                    }
                    r
                },
                None => {
                    self.put_slot(id.index, TaskSlot { generation, task: None });
                    proof {
                        assert(self.slots@ =~= old(self).slots@);
                    }
                    None
                },
            }
        } else {
            None
        }
    }

    /// Starts a frame wait of the task `id` for a render wait polled for the first time in the poll numbered `poll`,
    /// and returns its new token and the frame it counts from; see [`UiTask::start_frame_wait`].
    pub fn start_frame_wait(&mut self, id: TaskId, poll: u64) -> (r: (u64, u64))
        requires
            old(self).next_frame_token_view() < u64::MAX,
        ensures
            r.0 == old(self).next_frame_token_view() + 1,
            final(self).next_frame_token_view() == r.0,
            match old(self).task_view(id) {
                Some(t) => final(self).task_view(id) matches Some(u) && (match oldest_unpolled(t.frame_waits@, poll) {
                    Some(i) => r.1 == t.frame_waits@[i].seen && u.frame_waits@ == t.frame_waits@.update(i, t.frame_waits@.last()).drop_last(),
                    None => r.1 == old(self).frame_view() && u.frame_waits@ == t.frame_waits@,
                }) && u.future == t.future && u.owner == t.owner && u.path == t.path && u.inbox == t.inbox
                    && u.key_inbox == t.key_inbox && u.text_edit_inbox == t.text_edit_inbox && u.waits == t.waits,
                None => final(self).task_view(id) is None && r.1 == old(self).frame_view(),
            },
            final(self).only_slot_changed_or_token(old(self), id.index as int),
    {
        self.next_frame_token = self.next_frame_token + 1;
        let token = self.next_frame_token;
        let frame = self.frame;
        if id.index < self.slots.len() && self.slots[id.index].generation == id.generation {
            let slot = self.take_slot(id.index);
            let generation = slot.generation;
            match slot.task {
                Some(mut task) => {
                    let seen = task.start_frame_wait(poll, frame);
                    self.put_slot(id.index, TaskSlot { generation, task: Some(task) });
                    proof {
                        assert(self.tasks_view()[id.index as int] == self.slots@[id.index as int].task);
                        assert(old(self).tasks_view()[id.index as int] == old(self).slots@[id.index as int].task);
                        assert forall|j: int| 0 <= j < self.tasks_view().len() && j != id.index implies #[trigger] self.tasks_view()[j]
                            == old(self).tasks_view()[j] by {
                            assert(self.slots@[j] == old(self).slots@[j]);
                        }
                        assert(self.generations_view() =~= old(self).generations_view());
                    }
                    (token, seen)
                },
                None => {
                    self.put_slot(id.index, TaskSlot { generation, task: None });
                    proof {
                        assert(self.slots@ =~= old(self).slots@);
                    }
                    (token, frame)
                },
            }
        } else {
            (token, frame)
        }
    }
}


/// Keeping every wait keeps the sequence as it is.
proof fn lemma_kept_waits_all(waits: Seq<Registration>, keep: spec_fn(Registration) -> bool)
    requires
        forall|i: int| 0 <= i < waits.len() ==> keep(#[trigger] waits[i]),
    ensures
        kept_waits(waits, keep) == waits,
    decreases waits.len(),
{
    if waits.len() > 0 {
        let rest = waits.drop_last();
        assert forall|i: int| 0 <= i < rest.len() implies keep(#[trigger] rest[i]) by {
            assert(rest[i] == waits[i]);
        }
        lemma_kept_waits_all(rest, keep);
        assert(waits[waits.len() - 1] == waits.last());
        assert(rest.push(waits.last()) =~= waits);
    }
}

/// Whether a task waits for `key`.
pub open spec fn waiting_for<F, V>(key: WaitKey) -> spec_fn(UiTask<F, V>) -> bool {
    |t: UiTask<F, V>| waits_for(t.waits@, key)
}

/// Whether the task in one slot after a delivery is the task before it once `delivery` reached it.
pub open spec fn slot_delivered<F, V>(before: Option<UiTask<F, V>>, after: Option<UiTask<F, V>>, delivery: Delivery<V>) -> bool {
    match before {
        Some(t) => after matches Some(u) && delivered(t, u, delivery),
        None => after is None,
    }
}

impl<F, V: Copy> Runtime<F, V> {
    /// Delivers an input to every task that waits for it and returns those tasks, which the caller wakes.
    ///
    /// Input that arrives while nobody waits for it is discarded instead of queuing for a later wait. Input already
    /// delivered to a task's inbox stays: several events can land in one frame, and a component reads them one wait at
    /// a time.
    pub fn deliver(&mut self, delivery: Delivery<V>) -> (woken: Vec<TaskId>)
        ensures
            final(self).tasks_view().len() == old(self).tasks_view().len(),
            final(self).generations_view() == old(self).generations_view(),
            final(self).same_counters(old(self)),
            forall|j: int|
                0 <= j < old(self).tasks_view().len() ==> slot_delivered(
                    old(self).tasks_view()[j],
                    #[trigger] final(self).tasks_view()[j],
                    delivery,
                ),
            woken@ == selected_tasks(
                old(self).tasks_view(),
                old(self).generations_view(),
                waiting_for(delivery_key(delivery)),
            ),
    {
        let key = match delivery {
            Delivery::Event(e) => WaitKey::Event(e.target, e.kind),
            Delivery::Key(e) => WaitKey::Key(e.target, e.key),
            Delivery::TextEdit(e) => WaitKey::TextEdit(e.target),
        };
        let ghost tasks = old(self).tasks_view();
        let ghost generations = old(self).generations_view();
        let mut woken: Vec<TaskId> = Vec::new();
        let mut i: usize = 0;
        while i < self.slots.len()
            invariant
                i <= self.slots@.len(),
                key == delivery_key(delivery),
                tasks == old(self).tasks_view(),
                generations == old(self).generations_view(),
                self.tasks_view().len() == tasks.len(),
                self.generations_view() == generations,
                self.same_counters(old(self)),
                forall|j: int| 0 <= j < i ==> slot_delivered(tasks[j], #[trigger] self.tasks_view()[j], delivery),
                forall|j: int| i <= j < tasks.len() ==> #[trigger] self.tasks_view()[j] == tasks[j],
                woken@ == selected_tasks(tasks.take(i as int), generations, waiting_for(key)),
            decreases self.slots@.len() - i,
        {
            proof {
                self.lemma_slot_views();
                assert(tasks.take(i + 1).drop_last() =~= tasks.take(i as int));
                assert(tasks.take(i + 1).last() == tasks[i as int]);
            }
            if self.slots[i].task.is_some() {
                let ghost before = self.slots@;
                let ghost tv0 = self.tasks_view();
                let slot = self.take_slot(i);
                let generation = slot.generation;
                let mut task = slot.task.unwrap();
                let ghost t = task;
                assert(tv0[i as int] == tasks[i as int]);
                assert(tasks[i as int] == Some(t));
                let waiting = task.remove_waits(key);
                if waiting {
                    match delivery {
                        Delivery::Event(e) => task.inbox.push(e),
                        Delivery::Key(e) => task.key_inbox.push(e),
                        Delivery::TextEdit(e) => task.text_edit_inbox.push(e),
                    }
                    woken.push(TaskId { index: i, generation });
                } else {
                    proof {
                        assert forall|m: int| 0 <= m < t.waits@.len() implies (other_than(key))(#[trigger] t.waits@[m]) by {
                            if t.waits@[m].key == key {
                                assert(waits_for(t.waits@, key));
                            }
                        }
                        lemma_kept_waits_all(t.waits@, other_than(key));
                    }
                }
                self.put_slot(i, TaskSlot { generation, task: Some(task) });
                proof {
                    self.lemma_slot_views();
                    assert forall|j: int| 0 <= j < tasks.len() && j != i implies #[trigger] self.tasks_view()[j]
                        == tv0[j] by {
                        assert(self.slots@[j] == before[j]);
                    }
                    assert(slot_delivered(tasks[i as int], self.tasks_view()[i as int], delivery));
                    assert(self.generations_view() =~= generations) by {
                        assert forall|j: int| 0 <= j < tasks.len() implies #[trigger] self.generations_view()[j] == generations[j] by {
                            if j != i {
                                assert(self.slots@[j] == before[j]);
                            }
                        }
                    }
                }
            }
            i = i + 1;
        }
        proof {
            assert(tasks.take(tasks.len() as int) =~= tasks);
        }
        woken
    }

    /// Delivers a pointer event to every task that waits for it; see [`Self::deliver`].
    pub fn push_event(&mut self, event: UiEvent<V>) -> (woken: Vec<TaskId>)
        ensures
            final(self).tasks_view().len() == old(self).tasks_view().len(),
            final(self).generations_view() == old(self).generations_view(),
            final(self).same_counters(old(self)),
            forall|j: int|
                0 <= j < old(self).tasks_view().len() ==> slot_delivered(
                    old(self).tasks_view()[j],
                    #[trigger] final(self).tasks_view()[j],
                    Delivery::Event(event),
                ),
            woken@ == selected_tasks(
                old(self).tasks_view(),
                old(self).generations_view(),
                waiting_for(WaitKey::Event(event.target, event.kind)),
            ),
    {
        self.deliver(Delivery::Event(event))
    }

    /// Delivers a key press to every task that waits for it; see [`Self::deliver`].
    pub fn push_key_event(&mut self, event: UiKeyEvent) -> (woken: Vec<TaskId>)
        ensures
            final(self).tasks_view().len() == old(self).tasks_view().len(),
            final(self).generations_view() == old(self).generations_view(),
            final(self).same_counters(old(self)),
            forall|j: int|
                0 <= j < old(self).tasks_view().len() ==> slot_delivered(
                    old(self).tasks_view()[j],
                    #[trigger] final(self).tasks_view()[j],
                    Delivery::Key(event),
                ),
            woken@ == selected_tasks(
                old(self).tasks_view(),
                old(self).generations_view(),
                waiting_for(WaitKey::Key(event.target, event.key)),
            ),
    {
        self.deliver(Delivery::Key(event))
    }

    /// Delivers a text edit to every task that waits for it; see [`Self::deliver`].
    pub fn push_text_edit_event(&mut self, event: UiTextEditEvent) -> (woken: Vec<TaskId>)
        ensures
            final(self).tasks_view().len() == old(self).tasks_view().len(),
            final(self).generations_view() == old(self).generations_view(),
            final(self).same_counters(old(self)),
            forall|j: int|
                0 <= j < old(self).tasks_view().len() ==> slot_delivered(
                    old(self).tasks_view()[j],
                    #[trigger] final(self).tasks_view()[j],
                    Delivery::TextEdit(event),
                ),
            woken@ == selected_tasks(
                old(self).tasks_view(),
                old(self).generations_view(),
                waiting_for(WaitKey::TextEdit(event.target)),
            ),
    {
        self.deliver(Delivery::TextEdit(event))
    }
}


/// Removes every occurrence of `id` from `stack`.
fn remove_focus(stack: &mut Vec<Id>, id: Id)
    ensures
        final(stack)@ == crate::retained_tree::without_id(old(stack)@, id),
{
    let mut kept: Vec<Id> = Vec::new();
    let mut i: usize = 0;
    while i < stack.len()
        invariant
            i <= stack@.len(),
            stack@ == old(stack)@,
            kept@ == crate::retained_tree::without_id(stack@.take(i as int), id),
        decreases stack@.len() - i,
    {
        proof {
            assert(stack@.take(i + 1).drop_last() =~= stack@.take(i as int));
            assert(stack@.take(i + 1).last() == stack@[i as int]);
        }
        if stack[i] != id {
            kept.push(stack[i]);
        }
        i = i + 1;
    }
    proof {
        assert(stack@.take(stack@.len() as int) =~= stack@);
    }
    *stack = kept;
}

/// Whether a task has a render wait pending.
pub open spec fn waiting_for_frame<F, V>() -> spec_fn(UiTask<F, V>) -> bool {
    |t: UiTask<F, V>| t.frame_waits@.len() > 0
}

/// Whether a task has a timer due at `now`.
pub open spec fn timer_due<F, V>(now: u64) -> spec_fn(UiTask<F, V>) -> bool {
    |t: UiTask<F, V>| kept_waits(t.waits@, pending_at(now)).len() != t.waits@.len()
}

/// Whether a task is owned by the mounted scope `owner`.
pub open spec fn owned_by<F, V>(owner: ScopeId) -> spec_fn(UiTask<F, V>) -> bool {
    |t: UiTask<F, V>| t.owner == owner
}

impl<F, V: Copy> Runtime<F, V> {
    /// Puts `target` on top of the focus stack, moving it there when it was already focused.
    pub fn request_focus(&mut self, target: Id)
        ensures
            final(self).focus_view() == without_focus(old(self).focus_view(), target).push(target),
            final(self).tasks_view() == old(self).tasks_view(),
            final(self).generations_view() == old(self).generations_view(),
            final(self).frame_view() == old(self).frame_view(),
            final(self).polls_view() == old(self).polls_view(),
            final(self).next_scope_view() == old(self).next_scope_view(),
            final(self).next_frame_token_view() == old(self).next_frame_token_view(),
    {
        remove_focus(&mut self.focus_stack, target);
        self.focus_stack.push(target);
    }

    /// Takes `target` off the focus stack, returning focus to the element focused before it.
    pub fn release_focus(&mut self, target: Id)
        ensures
            final(self).focus_view() == without_focus(old(self).focus_view(), target),
            final(self).tasks_view() == old(self).tasks_view(),
            final(self).generations_view() == old(self).generations_view(),
            final(self).frame_view() == old(self).frame_view(),
            final(self).polls_view() == old(self).polls_view(),
            final(self).next_scope_view() == old(self).next_scope_view(),
            final(self).next_frame_token_view() == old(self).next_frame_token_view(),
    {
        remove_focus(&mut self.focus_stack, target);
    }

    /// Drops focus targets the last layout no longer holds and returns the most recently focused one left.
    pub fn focused_target(&mut self, state: &EngineState) -> (r: Option<Id>)
        ensures
            final(self).focus_view() == kept_events(old(self).focus_view(), |id: Id| state.element_ids_view().contains(id)),
            r == if final(self).focus_view().len() == 0 {
                None
            } else {
                Some(final(self).focus_view().last())
            },
            final(self).tasks_view() == old(self).tasks_view(),
            final(self).generations_view() == old(self).generations_view(),
            final(self).frame_view() == old(self).frame_view(),
            final(self).polls_view() == old(self).polls_view(),
            final(self).next_scope_view() == old(self).next_scope_view(),
            final(self).next_frame_token_view() == old(self).next_frame_token_view(),
    {
        retain_events(&mut self.focus_stack, Ghost(|id: Id| state.element_ids_view().contains(id)), |id: &Id| -> (r: bool)
                ensures
                    r == state.element_ids_view().contains(*id),
                { state.contains_element(*id) });
        let len = self.focus_stack.len();
        if len == 0 {
            None
        } else {
            Some(self.focus_stack[len - 1])
        }
    }

    /// Removes focus, waits, and delivered input addressed to the deleted elements `targets`.
    pub fn remove_targets(&mut self, targets: &HashSet<Id>)
        ensures
            final(self).focus_view() == kept_events(old(self).focus_view(), |id: Id| !targets@.contains(id)),
            final(self).tasks_view().len() == old(self).tasks_view().len(),
            final(self).generations_view() == old(self).generations_view(),
            final(self).frame_view() == old(self).frame_view(),
            final(self).polls_view() == old(self).polls_view(),
            final(self).next_scope_view() == old(self).next_scope_view(),
            final(self).next_frame_token_view() == old(self).next_frame_token_view(),
            forall|j: int|
                0 <= j < old(self).tasks_view().len() ==> slot_without_targets(
                    old(self).tasks_view()[j],
                    #[trigger] final(self).tasks_view()[j],
                    targets@,
                ),
    {
        retain_events(&mut self.focus_stack, Ghost(|id: Id| !targets@.contains(id)), |id: &Id| -> (r: bool)
                ensures
                    r == !targets@.contains(*id),
                { !targets.contains(id) });
        let ghost tasks = self.tasks_view();
        let ghost generations = self.generations_view();
        let ghost focus = self.focus_view();
        let mut i: usize = 0;
        while i < self.slots.len()
            invariant
                i <= self.slots@.len(),
                tasks == old(self).tasks_view(),
                generations == old(self).generations_view(),
                self.tasks_view().len() == tasks.len(),
                self.generations_view() == generations,
                self.focus_view() == focus,
                focus == kept_events(old(self).focus_view(), |id: Id| !targets@.contains(id)),
                self.frame_view() == old(self).frame_view(),
                self.polls_view() == old(self).polls_view(),
                self.next_scope_view() == old(self).next_scope_view(),
                self.next_frame_token_view() == old(self).next_frame_token_view(),
                forall|j: int| 0 <= j < i ==> slot_without_targets(tasks[j], #[trigger] self.tasks_view()[j], targets@),
                forall|j: int| i <= j < tasks.len() ==> #[trigger] self.tasks_view()[j] == tasks[j],
            decreases self.slots@.len() - i,
        {
            proof {
                self.lemma_slot_views();
            }
            if self.slots[i].task.is_some() {
                let ghost before = self.slots@;
                let ghost tv0 = self.tasks_view();
                let slot = self.take_slot(i);
                let generation = slot.generation;
                let mut task = slot.task.unwrap();
                assert(tv0[i as int] == tasks[i as int]);
                assert(tasks[i as int] == Some(task));
                task.remove_targets(targets);
                self.put_slot(i, TaskSlot { generation, task: Some(task) });
                proof {
                    self.lemma_slot_views();
                    assert forall|j: int| 0 <= j < tasks.len() && j != i implies #[trigger] self.tasks_view()[j]
                        == tv0[j] by {
                        assert(self.slots@[j] == before[j]);
                    }
                    assert forall|j: int| 0 <= j < tasks.len() implies #[trigger] self.generations_view()[j] == generations[j] by {
                        if j != i {
                            assert(self.slots@[j] == before[j]);
                        }
                    }
                    assert(self.generations_view() =~= generations);
                }
            }
            i = i + 1;
        }
    }

    /// Drops the timers due at `now` and returns the tasks that had one, which the caller wakes.
    pub fn wake_due_timers(&mut self, now: u64) -> (woken: Vec<TaskId>)
        ensures
            final(self).tasks_view().len() == old(self).tasks_view().len(),
            final(self).generations_view() == old(self).generations_view(),
            final(self).same_counters(old(self)),
            forall|j: int|
                0 <= j < old(self).tasks_view().len() ==> match old(self).tasks_view()[j] {
                    Some(t) => (#[trigger] final(self).tasks_view()[j]) matches Some(u) && u.waits@ == kept_waits(
                        t.waits@,
                        pending_at(now),
                    ) && u.inbox == t.inbox && u.key_inbox == t.key_inbox && u.text_edit_inbox == t.text_edit_inbox
                        && u.future == t.future && u.owner == t.owner && u.path == t.path && u.frame_waits
                        == t.frame_waits,
                    None => final(self).tasks_view()[j] is None,
                },
            woken@ == selected_tasks(old(self).tasks_view(), old(self).generations_view(), timer_due(now)),
    {
        let ghost tasks = self.tasks_view();
        let ghost generations = self.generations_view();
        let mut woken: Vec<TaskId> = Vec::new();
        let mut i: usize = 0;
        while i < self.slots.len()
            invariant
                i <= self.slots@.len(),
                tasks == old(self).tasks_view(),
                generations == old(self).generations_view(),
                self.tasks_view().len() == tasks.len(),
                self.generations_view() == generations,
                self.same_counters(old(self)),
                forall|j: int|
                    0 <= j < i ==> match tasks[j] {
                        Some(t) => (#[trigger] self.tasks_view()[j]) matches Some(u) && u.waits@ == kept_waits(
                            t.waits@,
                            pending_at(now),
                        ) && u.inbox == t.inbox && u.key_inbox == t.key_inbox && u.text_edit_inbox
                            == t.text_edit_inbox && u.future == t.future && u.owner == t.owner && u.path == t.path
                            && u.frame_waits == t.frame_waits,
                        None => self.tasks_view()[j] is None,
                    },
                forall|j: int| i <= j < tasks.len() ==> #[trigger] self.tasks_view()[j] == tasks[j],
                woken@ == selected_tasks(tasks.take(i as int), generations, timer_due(now)),
            decreases self.slots@.len() - i,
        {
            proof {
                assert(tasks.take(i + 1).drop_last() =~= tasks.take(i as int));
                assert(tasks.take(i + 1).last() == tasks[i as int]);
                assert(self.tasks_view()[i as int] == self.slots@[i as int].task);
                assert(generations[i as int] == self.slots@[i as int].generation);
            }
            if self.slots[i].task.is_some() {
                let ghost before = self.slots@;
                let ghost tv0 = self.tasks_view();
                let slot = self.take_slot(i);
                let generation = slot.generation;
                let mut task = slot.task.unwrap();
                if task.wake_due_timers(now) {
                    woken.push(TaskId { index: i, generation });
                }
                self.put_slot(i, TaskSlot { generation, task: Some(task) });
                proof {
                    self.lemma_slot_views();
                    assert forall|j: int| 0 <= j < tasks.len() && j != i implies #[trigger] self.tasks_view()[j]
                        == tv0[j] by {
                        assert(self.slots@[j] == before[j]);
                    }
                    assert forall|j: int| 0 <= j < tasks.len() implies #[trigger] self.generations_view()[j] == generations[j] by {
                        if j != i {
                            assert(self.slots@[j] == before[j]);
                        }
                    }
                    assert(self.generations_view() =~= generations);
                }
            }
            i = i + 1;
        }
        proof {
            assert(tasks.take(tasks.len() as int) =~= tasks);
        }
        woken
    }

    /// Returns the tasks that wait for a frame.
    pub fn frame_waiters(&self) -> (r: Vec<TaskId>)
        ensures
            r@ == selected_tasks(self.tasks_view(), self.generations_view(), waiting_for_frame()),
    {
        let ghost tasks = self.tasks_view();
        let mut found: Vec<TaskId> = Vec::new();
        let mut i: usize = 0;
        while i < self.slots.len()
            invariant
                i <= self.slots@.len(),
                tasks == self.tasks_view(),
                found@ == selected_tasks(tasks.take(i as int), self.generations_view(), waiting_for_frame()),
            decreases self.slots@.len() - i,
        {
            proof {
                assert(tasks.take(i + 1).drop_last() =~= tasks.take(i as int));
                assert(tasks.take(i + 1).last() == tasks[i as int]);
                assert(self.tasks_view()[i as int] == self.slots@[i as int].task);
                assert(self.generations_view()[i as int] == self.slots@[i as int].generation);
            }
            match &self.slots[i].task {
                Some(task) => {
                    if task.frame_waits.len() > 0 {
                        found.push(TaskId { index: i, generation: self.slots[i].generation });
                    }
                },
                None => {},
            }
            i = i + 1;
        }
        proof {
            assert(tasks.take(tasks.len() as int) =~= tasks);
        }
        found
    }

    /// Starts a frame at `now`: wakes the tasks whose timers are due, then the tasks that wait for a frame, and
    /// returns them in that order.
    pub fn begin_frame(&mut self, now: u64) -> (woken: Vec<TaskId>)
        requires
            old(self).frame_view() < u64::MAX,
        ensures
            final(self).frame_view() == old(self).frame_view() + 1,
            final(self).tasks_view().len() == old(self).tasks_view().len(),
            final(self).generations_view() == old(self).generations_view(),
            final(self).focus_view() == old(self).focus_view(),
            forall|j: int|
                0 <= j < old(self).tasks_view().len() ==> match old(self).tasks_view()[j] {
                    Some(t) => (#[trigger] final(self).tasks_view()[j]) matches Some(u) && u.waits@ == kept_waits(
                        t.waits@,
                        pending_at(now),
                    ) && u.inbox == t.inbox && u.key_inbox == t.key_inbox && u.text_edit_inbox == t.text_edit_inbox
                        && u.future == t.future && u.owner == t.owner && u.path == t.path && u.frame_waits
                        == t.frame_waits,
                    None => final(self).tasks_view()[j] is None,
                },
            woken@ == selected_tasks(old(self).tasks_view(), old(self).generations_view(), timer_due(now)) + selected_tasks(
                final(self).tasks_view(),
                final(self).generations_view(),
                waiting_for_frame(),
            ),
    {
        self.frame = self.frame + 1;
        let mut woken = self.wake_due_timers(now);
        let mut waiting = self.frame_waiters();
        woken.append(&mut waiting);
        woken
    }

    /// Returns when the engine next needs an evaluation, given the current time `now`: now while a component waits
    /// for a frame, which includes every running animation, otherwise at the earliest timer, or `None` when it only
    /// reacts to input.
    pub fn next_tick(&self, now: u64) -> (r: Option<u64>)
        ensures
            selected_tasks(self.tasks_view(), self.generations_view(), waiting_for_frame()).len() > 0 ==> r == Some(now),
            selected_tasks(self.tasks_view(), self.generations_view(), waiting_for_frame()).len() == 0 ==> {
                &&& r matches Some(d) ==> exists|j: int, i: int|
                    0 <= j < self.tasks_view().len() && #[trigger] timer_deadline(self.tasks_view(), j, i) == Some(d)
                &&& forall|j: int, i: int|
                    0 <= j < self.tasks_view().len() && (#[trigger] timer_deadline(self.tasks_view(), j, i)) is Some
                        ==> r is Some && r->0 <= timer_deadline(self.tasks_view(), j, i)->0
            },
    {
        if self.needs_tick() {
            return Some(now);
        }
        self.next_deadline()
    }

    /// Reports whether a component waits for the next frame.
    pub fn needs_tick(&self) -> (r: bool)
        ensures
            r == (selected_tasks(self.tasks_view(), self.generations_view(), waiting_for_frame()).len() > 0),
    {
        self.frame_waiters().len() > 0
    }
}


/// The deadline of the `k`-th wait of the task in slot `j`, where that wait is a timer.
pub open spec fn timer_deadline<F, V>(tasks: Seq<Option<UiTask<F, V>>>, j: int, k: int) -> Option<u64> {
    match tasks[j] {
        Some(t) => if 0 <= k < t.waits@.len() {
            match t.waits@[k].key {
                WaitKey::Timer(e) => Some(e),
                _ => None,
            }
        } else {
            None
        },
        None => None,
    }
}

/// The live tasks among `tasks` that `selected` accepts, in slot order.
pub open spec fn selected_task_values<F, V>(tasks: Seq<Option<UiTask<F, V>>>, selected: spec_fn(UiTask<F, V>) -> bool) -> Seq<
    UiTask<F, V>,
>
    decreases tasks.len(),
{
    if tasks.len() == 0 {
        Seq::empty()
    } else {
        let rest = selected_task_values(tasks.drop_last(), selected);
        match tasks.last() {
            Some(t) => if selected(t) {
                rest.push(t)
            } else {
                rest
            },
            None => rest,
        }
    }
}

/// Whether a task was declared at a path under `path`, following `declarations`.
pub open spec fn declared_in_scope<F, V>(declarations: Map<u64, u64>, path: u64) -> spec_fn(UiTask<F, V>) -> bool {
    |t: UiTask<F, V>| crate::retained_tree::declared_under(declarations, t.path, path)
}

impl<F, V: Copy> Runtime<F, V> {
    /// Ends every task `decide` selects and hands them to the caller, in slot order.
    ///
    /// A dropped future may own mounted scopes, which send the commands that end them.
    fn detach_where(&mut self, selected: Ghost<spec_fn(UiTask<F, V>) -> bool>, decide: impl Fn(&UiTask<F, V>) -> bool) -> (r: Vec<
        UiTask<F, V>,
    >)
        requires
            forall|t: UiTask<F, V>| #[trigger] decide.requires((&t,)),
            forall|t: UiTask<F, V>, b: bool| decide.ensures((&t,), b) ==> b == (selected@)(t),
        ensures
            r@ == selected_task_values(old(self).tasks_view(), selected@),
            final(self).tasks_view().len() == old(self).tasks_view().len(),
            final(self).generations_view() == old(self).generations_view(),
            final(self).same_counters(old(self)),
            forall|j: int|
                0 <= j < old(self).tasks_view().len() ==> #[trigger] final(self).tasks_view()[j] == match old(self).tasks_view()[j] {
                    Some(t) => if (selected@)(t) {
                        None
                    } else {
                        Some(t)
                    },
                    None => None,
                },
    {
        let ghost tasks = self.tasks_view();
        let ghost generations = self.generations_view();
        let mut detached: Vec<UiTask<F, V>> = Vec::new();
        let mut i: usize = 0;
        while i < self.slots.len()
            invariant
                i <= self.slots@.len(),
                tasks == old(self).tasks_view(),
                generations == old(self).generations_view(),
                self.tasks_view().len() == tasks.len(),
                self.generations_view() == generations,
                self.same_counters(old(self)),
                forall|t: UiTask<F, V>| #[trigger] decide.requires((&t,)),
                forall|t: UiTask<F, V>, b: bool| decide.ensures((&t,), b) ==> b == (selected@)(t),
                forall|j: int|
                    0 <= j < i ==> #[trigger] self.tasks_view()[j] == match tasks[j] {
                        Some(t) => if (selected@)(t) {
                            None
                        } else {
                            Some(t)
                        },
                        None => None,
                    },
                forall|j: int| i <= j < tasks.len() ==> #[trigger] self.tasks_view()[j] == tasks[j],
                detached@ == selected_task_values(tasks.take(i as int), selected@),
            decreases self.slots@.len() - i,
        {
            proof {
                assert(tasks.take(i + 1).drop_last() =~= tasks.take(i as int));
                assert(tasks.take(i + 1).last() == tasks[i as int]);
                self.lemma_slot_views();
            }
            let ghost before = self.slots@;
            let ghost tv0 = self.tasks_view();
            assert(tv0[i as int] == tasks[i as int]);
            let slot = self.take_slot(i);
            let generation = slot.generation;
            match slot.task {
                Some(task) => {
                    if decide(&task) {
                        detached.push(task);
                        self.put_slot(i, TaskSlot { generation, task: None });
                    } else {
                        self.put_slot(i, TaskSlot { generation, task: Some(task) });
                    }
                },
                None => {
                    self.put_slot(i, TaskSlot { generation, task: None });
                },
            }
            proof {
                self.lemma_slot_views();
                assert forall|j: int| 0 <= j < tasks.len() && j != i implies #[trigger] self.tasks_view()[j] == tv0[j] by {
                    assert(self.slots@[j] == before[j]);
                }
                assert forall|j: int| 0 <= j < tasks.len() implies #[trigger] self.generations_view()[j] == generations[j] by {
                    if j != i {
                        assert(self.slots@[j] == before[j]);
                    }
                }
                assert(self.generations_view() =~= generations);
            }
            i = i + 1;
        }
        proof {
            assert(tasks.take(tasks.len() as int) =~= tasks);
        }
        detached
    }

    /// Ends every task the mounted scope `owner` owns and hands them to the caller, in slot order.
    pub fn detach_owned(&mut self, owner: ScopeId) -> (r: Vec<UiTask<F, V>>)
        ensures
            r@ == selected_task_values(old(self).tasks_view(), owned_by(owner)),
            final(self).tasks_view().len() == old(self).tasks_view().len(),
            final(self).generations_view() == old(self).generations_view(),
            final(self).same_counters(old(self)),
            forall|j: int|
                0 <= j < old(self).tasks_view().len() ==> #[trigger] final(self).tasks_view()[j] == match old(self).tasks_view()[j] {
                    Some(t) => if t.owner == owner {
                        None
                    } else {
                        Some(t)
                    },
                    None => None,
                },
    {
        self.detach_where(Ghost(owned_by(owner)), |t: &UiTask<F, V>| -> (b: bool)
            ensures
                b == (t.owner == owner),
            { t.owner == owner })
    }

    /// Ends every task declared at a path under `path` and hands them to the caller, in slot order.
    pub fn detach_declared_under<P>(&mut self, tree: &crate::retained_tree::RetainedTree<P>, path: u64) -> (r: Vec<
        UiTask<F, V>,
    >)
        ensures
            r@ == selected_task_values(old(self).tasks_view(), declared_in_scope(tree.declarations_view(), path)),
            final(self).tasks_view().len() == old(self).tasks_view().len(),
            final(self).generations_view() == old(self).generations_view(),
            final(self).same_counters(old(self)),
            forall|j: int|
                0 <= j < old(self).tasks_view().len() ==> #[trigger] final(self).tasks_view()[j] == match old(self).tasks_view()[j] {
                    Some(t) => if crate::retained_tree::declared_under(tree.declarations_view(), t.path, path) {
                        None
                    } else {
                        Some(t)
                    },
                    None => None,
                },
    {
        self.detach_where(Ghost(declared_in_scope(tree.declarations_view(), path)), |t: &UiTask<F, V>| -> (b: bool)
            ensures
                b == crate::retained_tree::declared_under(tree.declarations_view(), t.path, path),
            { tree.path_is_under(t.path, path) })
    }

    /// Returns the earliest deadline a pending timer waits for.
    pub fn next_deadline(&self) -> (r: Option<u64>)
        ensures
            match r {
                Some(d) => exists|j: int, i: int|
                    0 <= j < self.tasks_view().len() && #[trigger] timer_deadline(self.tasks_view(), j, i) == Some(d),
                None => true,
            },
            forall|j: int, i: int|
                0 <= j < self.tasks_view().len() && (#[trigger] timer_deadline(self.tasks_view(), j, i)) is Some
                    ==> r is Some && r->0 <= timer_deadline(self.tasks_view(), j, i)->0,
    {
        let mut earliest: Option<u64> = None;
        let mut i: usize = 0;
        while i < self.slots.len()
            invariant
                i <= self.slots@.len(),
                match earliest {
                    Some(d) => exists|j: int, k: int|
                        0 <= j < i && #[trigger] timer_deadline(self.tasks_view(), j, k) == Some(d),
                    None => true,
                },
                forall|j: int, k: int|
                    0 <= j < i && (#[trigger] timer_deadline(self.tasks_view(), j, k)) is Some
                        ==> earliest is Some && earliest->0 <= timer_deadline(self.tasks_view(), j, k)->0,
            decreases self.slots@.len() - i,
        {
            proof {
                self.lemma_slot_views();
            }
            match &self.slots[i].task {
                Some(task) => {
                    match task.next_deadline() {
                        Some(deadline) => {
                            let ghost k = choose|k: int| 0 <= k < task.waits@.len() && task.waits@[k].key == WaitKey::Timer(deadline);
                            assert(timer_deadline(self.tasks_view(), i as int, k) == Some(deadline));
                            match earliest {
                                Some(d) => {
                                    if deadline < d {
                                        earliest = Some(deadline);
                                    }
                                },
                                None => {
                                    earliest = Some(deadline);
                                },
                            }
                        },
                        None => {},
                    }
                    assert forall|k: int| (#[trigger] timer_deadline(self.tasks_view(), i as int, k)) is Some implies
                        earliest is Some && earliest->0 <= timer_deadline(self.tasks_view(), i as int, k)->0 by {
                        assert(task.waits@[k].key is Timer);
                    }
                },
                None => {},
            }
            i = i + 1;
        }
        earliest
    }
}

} // verus!
