//! How the engine routes the input of one frame to the components that wait for it.
//!
//! Pointer events bubble from the element they hit through each of its ancestors. Key presses and text edits go to
//! the most recently focused element the last layout still holds. Hover changes tell the surfaces the pointer left and
//! entered, skipping those that contain both the old and the new target.
use vstd::prelude::*;

use crate::drag::{drop_of, Drag, DragCapture, DragDrop};
use crate::element::Id;
use crate::engine_state::EngineState;
use crate::input::{InputQueue, PointerQueue};
use crate::primitive::{Events, Key, TextEdit, UiEvent, UiKeyEvent, UiTextEditEvent};
use crate::retained_tree::RetainedTree;
use crate::runtime::{
    delivered, delivery_key, kept_events, kept_waits, other_than, selected_tasks, slot_delivered, waiting_for,
    waits_for, Delivery, Registration, Runtime, TaskId, UiTask, WaitKey,
};

verus! {

/// What one task holds of the input routed to it: its waits, then its pointer, key, and text edit inboxes.
pub open spec fn mailbox<F, V>(t: UiTask<F, V>) -> (Seq<Registration>, Seq<UiEvent<V>>, Seq<UiKeyEvent>, Seq<UiTextEditEvent>) {
    (t.waits@, t.inbox@, t.key_inbox@, t.text_edit_inbox@)
}

/// The mailbox `m` once `delivery` reached it: a task that waits for it loses those waits and finds the input in its
/// inbox; any other task is unchanged.
pub open spec fn receive<V>(
    m: (Seq<Registration>, Seq<UiEvent<V>>, Seq<UiKeyEvent>, Seq<UiTextEditEvent>),
    delivery: Delivery<V>,
) -> (Seq<Registration>, Seq<UiEvent<V>>, Seq<UiKeyEvent>, Seq<UiTextEditEvent>) {
    let key = delivery_key(delivery);
    let waiting = waits_for(m.0, key);
    (
        if waiting {
            kept_waits(m.0, other_than(key))
        } else {
            m.0
        },
        match delivery {
            Delivery::Event(e) => if waiting {
                m.1.push(e)
            } else {
                m.1
            },
            _ => m.1,
        },
        match delivery {
            Delivery::Key(e) => if waiting {
                m.2.push(e)
            } else {
                m.2
            },
            _ => m.2,
        },
        match delivery {
            Delivery::TextEdit(e) => if waiting {
                m.3.push(e)
            } else {
                m.3
            },
            _ => m.3,
        },
    )
}

/// The mailbox `m` once each of `deliveries` reached it in turn.
pub open spec fn receive_all<V>(
    m: (Seq<Registration>, Seq<UiEvent<V>>, Seq<UiKeyEvent>, Seq<UiTextEditEvent>),
    deliveries: Seq<Delivery<V>>,
) -> (Seq<Registration>, Seq<UiEvent<V>>, Seq<UiKeyEvent>, Seq<UiTextEditEvent>)
    decreases deliveries.len(),
{
    if deliveries.len() == 0 {
        m
    } else {
        receive(receive_all(m, deliveries.drop_last()), deliveries.last())
    }
}

/// Whether the task in one slot after a run of deliveries is the task before it once each reached it in turn.
pub open spec fn slot_received_all<F, V>(
    before: Option<UiTask<F, V>>,
    after: Option<UiTask<F, V>>,
    deliveries: Seq<Delivery<V>>,
) -> bool {
    match before {
        Some(t) => after matches Some(u) && mailbox(u) == receive_all(mailbox(t), deliveries) && u.future == t.future
            && u.owner == t.owner && u.path == t.path && u.frame_waits == t.frame_waits,
        None => after is None,
    }
}

/// The handles of the live slots among `boxes` whose mailbox waits for `key`, in slot order.
pub open spec fn waiting_handles<V>(
    boxes: Seq<Option<(Seq<Registration>, Seq<UiEvent<V>>, Seq<UiKeyEvent>, Seq<UiTextEditEvent>)>>,
    generations: Seq<u64>,
    key: WaitKey,
) -> Seq<TaskId>
    decreases boxes.len(),
{
    if boxes.len() == 0 {
        Seq::empty()
    } else {
        let rest = waiting_handles(boxes.drop_last(), generations, key);
        let i = boxes.len() - 1;
        match boxes.last() {
            Some(m) => if waits_for(m.0, key) {
                rest.push(TaskId { index: i as usize, generation: generations[i] })
            } else {
                rest
            },
            None => rest,
        }
    }
}

/// The mailboxes of the tasks in each slot.
pub open spec fn mailboxes<F, V>(tasks: Seq<Option<UiTask<F, V>>>) -> Seq<
    Option<(Seq<Registration>, Seq<UiEvent<V>>, Seq<UiKeyEvent>, Seq<UiTextEditEvent>)>,
> {
    tasks.map_values(
        |t: Option<UiTask<F, V>>|
            match t {
                Some(t) => Some(mailbox(t)),
                None => None,
            },
    )
}

/// The mailboxes `boxes` once each of `deliveries` reached them in turn.
pub open spec fn boxes_after<V>(
    boxes: Seq<Option<(Seq<Registration>, Seq<UiEvent<V>>, Seq<UiKeyEvent>, Seq<UiTextEditEvent>)>>,
    deliveries: Seq<Delivery<V>>,
) -> Seq<Option<(Seq<Registration>, Seq<UiEvent<V>>, Seq<UiKeyEvent>, Seq<UiTextEditEvent>)>> {
    boxes.map_values(
        |m: Option<(Seq<Registration>, Seq<UiEvent<V>>, Seq<UiKeyEvent>, Seq<UiTextEditEvent>)>|
            match m {
                Some(m) => Some(receive_all(m, deliveries)),
                None => None,
            },
    )
}

/// The tasks each of `deliveries` wakes in turn: for each, the tasks that wait for it once the earlier ones arrived,
/// in slot order.
pub open spec fn woken_by<V>(
    boxes: Seq<Option<(Seq<Registration>, Seq<UiEvent<V>>, Seq<UiKeyEvent>, Seq<UiTextEditEvent>)>>,
    generations: Seq<u64>,
    deliveries: Seq<Delivery<V>>,
) -> Seq<TaskId>
    decreases deliveries.len(),
{
    if deliveries.len() == 0 {
        Seq::empty()
    } else {
        let earlier = deliveries.drop_last();
        woken_by(boxes, generations, earlier) + waiting_handles(
            boxes_after(boxes, earlier),
            generations,
            delivery_key(deliveries.last()),
        )
    }
}

/// One delivery as the runtime records it is one step of `receive`.
proof fn lemma_delivered_receives<F, V>(t: UiTask<F, V>, u: UiTask<F, V>, delivery: Delivery<V>)
    requires
        delivered(t, u, delivery),
    ensures
        mailbox(u) == receive(mailbox(t), delivery),
{
}

/// The tasks a delivery wakes are the slots whose mailbox waits for it.
proof fn lemma_selected_are_waiting<F, V>(tasks: Seq<Option<UiTask<F, V>>>, generations: Seq<u64>, key: WaitKey)
    ensures
        selected_tasks(tasks, generations, waiting_for(key)) == waiting_handles(mailboxes(tasks), generations, key),
    decreases tasks.len(),
{
    if tasks.len() > 0 {
        lemma_selected_are_waiting(tasks.drop_last(), generations, key);
        assert(mailboxes(tasks.drop_last()) =~= mailboxes(tasks).drop_last());
    }
}

/// Delivers each input of `deliveries` in turn to the tasks that wait for it, and returns the tasks each one woke,
/// which the caller wakes.
pub fn deliver_all<F, V: Copy>(runtime: &mut Runtime<F, V>, deliveries: &[Delivery<V>]) -> (woken: Vec<TaskId>)
    ensures
        final(runtime).tasks_view().len() == old(runtime).tasks_view().len(),
        final(runtime).generations_view() == old(runtime).generations_view(),
        final(runtime).same_counters(old(runtime)),
        forall|j: int|
            0 <= j < old(runtime).tasks_view().len() ==> slot_received_all(
                old(runtime).tasks_view()[j],
                #[trigger] final(runtime).tasks_view()[j],
                deliveries@,
            ),
        woken@ == woken_by(mailboxes(old(runtime).tasks_view()), old(runtime).generations_view(), deliveries@),
{
    let ghost tasks = runtime.tasks_view();
    let ghost generations = runtime.generations_view();
    let mut woken: Vec<TaskId> = Vec::new();
    let mut i: usize = 0;
    proof {
        assert forall|j: int| 0 <= j < tasks.len() implies slot_received_all(
            tasks[j],
            #[trigger] runtime.tasks_view()[j],
            deliveries@.take(0),
        ) by {
            assert(deliveries@.take(0).len() == 0);
        }
        assert(mailboxes(runtime.tasks_view()) =~= boxes_after(mailboxes(tasks), deliveries@.take(0)));
    }
    while i < deliveries.len()
        invariant
            i <= deliveries@.len(),
            tasks == old(runtime).tasks_view(),
            generations == old(runtime).generations_view(),
            runtime.tasks_view().len() == tasks.len(),
            runtime.generations_view() == generations,
            runtime.same_counters(old(runtime)),
            forall|j: int|
                0 <= j < tasks.len() ==> slot_received_all(
                    tasks[j],
                    #[trigger] runtime.tasks_view()[j],
                    deliveries@.take(i as int),
                ),
            mailboxes(runtime.tasks_view()) == boxes_after(mailboxes(tasks), deliveries@.take(i as int)),
            woken@ == woken_by(mailboxes(tasks), generations, deliveries@.take(i as int)),
        decreases deliveries@.len() - i,
    {
        let ghost before = runtime.tasks_view();
        let ghost done = deliveries@.take(i as int);
        let ghost next = deliveries@.take(i + 1);
        let delivery = deliveries[i];
        proof {
            assert(next.drop_last() =~= done);
            assert(next.last() == delivery);
            lemma_selected_are_waiting(before, generations, delivery_key(delivery));
        }
        let mut step = runtime.deliver(delivery);
        proof {
            assert forall|j: int| 0 <= j < tasks.len() implies slot_received_all(
                tasks[j],
                #[trigger] runtime.tasks_view()[j],
                next,
            ) by {
                assert(slot_received_all(tasks[j], before[j], done));
                assert(slot_delivered(before[j], runtime.tasks_view()[j], delivery));
                match before[j] {
                    Some(t) => {
                        let u = runtime.tasks_view()[j]->0;
                        lemma_delivered_receives(t, u, delivery);
                    },
                    None => {},
                }
            }
            assert(mailboxes(runtime.tasks_view()) =~= boxes_after(mailboxes(tasks), next)) by {
                assert forall|j: int| 0 <= j < tasks.len() implies #[trigger] mailboxes(runtime.tasks_view())[j]
                    == boxes_after(mailboxes(tasks), next)[j] by {
                    assert(slot_received_all(tasks[j], runtime.tasks_view()[j], next));
                }
            }
        }
        woken.append(&mut step);
        i = i + 1;
    }
    proof {
        assert(deliveries@.take(deliveries@.len() as int) =~= deliveries@);
    }
    woken
}

/// The pointer events an event of `kind` makes as it bubbles along `chain`: one for each element, nearest first.
pub open spec fn bubbled<V>(chain: Seq<Id>, kind: Events, delta: Option<V>, source: Option<Id>) -> Seq<Delivery<V>> {
    chain.map_values(|id: Id| Delivery::Event(UiEvent { target: id, kind, delta, source }))
}

/// Delivers one pointer event to `target` and then to each of its ancestors, and returns the tasks it woke.
pub fn route_bubbling_event<F, P, V: Copy>(
    runtime: &mut Runtime<F, V>,
    tree: &RetainedTree<P>,
    target: Id,
    kind: Events,
    delta: Option<V>,
    source: Option<Id>,
) -> (woken: Vec<TaskId>)
    requires
        tree.wf(),
    ensures
        final(runtime).tasks_view().len() == old(runtime).tasks_view().len(),
        final(runtime).generations_view() == old(runtime).generations_view(),
        final(runtime).same_counters(old(runtime)),
        forall|j: int|
            0 <= j < old(runtime).tasks_view().len() ==> slot_received_all(
                old(runtime).tasks_view()[j],
                #[trigger] final(runtime).tasks_view()[j],
                bubbled(tree.ancestors_view(target), kind, delta, source),
            ),
        woken@ == woken_by(
            mailboxes(old(runtime).tasks_view()),
            old(runtime).generations_view(),
            bubbled(tree.ancestors_view(target), kind, delta, source),
        ),
{
    let chain = tree.ancestors(target);
    let mut deliveries: Vec<Delivery<V>> = Vec::new();
    let mut i: usize = 0;
    while i < chain.len()
        invariant
            i <= chain@.len(),
            deliveries@ == bubbled(chain@.take(i as int), kind, delta, source),
        decreases chain@.len() - i,
    {
        deliveries.push(Delivery::Event(UiEvent { target: chain[i], kind, delta, source }));
        proof {
            assert(bubbled(chain@.take(i + 1), kind, delta, source) =~= deliveries@);
        }
        i = i + 1;
    }
    proof {
        assert(chain@.take(chain@.len() as int) =~= chain@);
    }
    deliver_all(runtime, deliveries.as_slice())
}

/// The elements a pointer event on `target` bubbles through: the target and its ancestors, or none without a target.
pub open spec fn pointer_chain<P>(tree: &RetainedTree<P>, target: Option<Id>) -> Seq<Id> {
    match target {
        Some(t) => tree.ancestors_view(t),
        None => Seq::empty(),
    }
}

/// The events the queued button states `clicks` make on `target`, drained newest first: each press actuates the
/// target. Nothing is actuated without a target.
pub open spec fn click_deliveries<V>(clicks: Seq<bool>, target: Option<Id>) -> Seq<Delivery<V>>
    decreases clicks.len(),
{
    if clicks.len() == 0 {
        Seq::empty()
    } else {
        let here = match target {
            Some(t) => if clicks.last() {
                seq![Delivery::Event(UiEvent { target: t, kind: Events::Actuated, delta: None, source: None })]
            } else {
                Seq::empty()
            },
            None => Seq::empty(),
        };
        here + click_deliveries(clicks.drop_last(), target)
    }
}

/// The events the queued scroll deltas `scrolls` make along `chain`, drained newest first: each scroll bubbles
/// through the whole chain with its delta.
pub open spec fn scroll_deliveries<V>(chain: Seq<Id>, scrolls: Seq<V>) -> Seq<Delivery<V>>
    decreases scrolls.len(),
{
    if scrolls.len() == 0 {
        Seq::empty()
    } else {
        bubbled(chain, Events::Scrolled, Some(scrolls.last()), None) + scroll_deliveries(chain, scrolls.drop_last())
    }
}

/// Delivers this frame's queued clicks and scrolls, which all land on `target`, the surface hit at the pointer, if
/// any, and returns the tasks they woke. Both queues are drained, newest first: every press actuates the target, then
/// every scroll bubbles from it through its ancestors.
pub fn route_pointer_input<F, P, V: Copy, Q>(
    runtime: &mut Runtime<F, V>,
    tree: &RetainedTree<P>,
    target: Option<Id>,
    pointer: &mut PointerQueue<V, Q>,
) -> (woken: Vec<TaskId>)
    requires
        tree.wf(),
    ensures
        final(pointer).clicks@.len() == 0,
        final(pointer).scrolls@.len() == 0,
        final(pointer).clicking == old(pointer).clicking,
        final(pointer).drops@ == old(pointer).drops@,
        final(runtime).tasks_view().len() == old(runtime).tasks_view().len(),
        final(runtime).generations_view() == old(runtime).generations_view(),
        final(runtime).same_counters(old(runtime)),
        forall|j: int|
            0 <= j < old(runtime).tasks_view().len() ==> slot_received_all(
                old(runtime).tasks_view()[j],
                #[trigger] final(runtime).tasks_view()[j],
                click_deliveries::<V>(old(pointer).clicks@, target) + scroll_deliveries(pointer_chain(tree, target), old(pointer).scrolls@),
            ),
        woken@ == woken_by(
            mailboxes(old(runtime).tasks_view()),
            old(runtime).generations_view(),
            click_deliveries::<V>(old(pointer).clicks@, target) + scroll_deliveries(pointer_chain(tree, target), old(pointer).scrolls@),
        ),
{
    let ghost all_clicks = pointer.clicks@;
    let ghost all_scrolls = pointer.scrolls@;
    let mut deliveries: Vec<Delivery<V>> = Vec::new();
    while pointer.clicks.len() > 0
        invariant
            deliveries@ + click_deliveries::<V>(pointer.clicks@, target) == click_deliveries::<V>(all_clicks, target),
            pointer.scrolls@ == all_scrolls,
            pointer.drops@ == old(pointer).drops@,
            pointer.clicking == old(pointer).clicking,
        decreases pointer.clicks@.len(),
    {
        let ghost before = pointer.clicks@;
        let click = pointer.clicks.pop().unwrap();
        let ghost here = deliveries@;
        match target {
            Some(t) => if click {
                deliveries.push(Delivery::Event(UiEvent { target: t, kind: Events::Actuated, delta: None, source: None }));
            },
            None => {},
        }
        proof {
            let rest = click_deliveries::<V>(pointer.clicks@, target);
            assert(before.drop_last() =~= pointer.clicks@);
            assert(deliveries@ + rest =~= here + click_deliveries::<V>(before, target));
        }
    }
    let chain: Vec<Id> = match target {
        Some(t) => tree.ancestors(t),
        None => Vec::new(),
    };
    proof {
        assert(chain@ =~= pointer_chain(tree, target));
        assert(click_deliveries::<V>(pointer.clicks@, target) =~= Seq::<Delivery<V>>::empty());
        assert(deliveries@ =~= click_deliveries::<V>(all_clicks, target));
    }
    while pointer.scrolls.len() > 0
        invariant
            chain@ == pointer_chain(tree, target),
            deliveries@ + scroll_deliveries(chain@, pointer.scrolls@) == click_deliveries::<V>(all_clicks, target)
                + scroll_deliveries(chain@, all_scrolls),
            pointer.clicks@.len() == 0,
            pointer.drops@ == old(pointer).drops@,
            pointer.clicking == old(pointer).clicking,
        decreases pointer.scrolls@.len(),
    {
        let ghost before = pointer.scrolls@;
        let delta = pointer.scrolls.pop().unwrap();
        let ghost base = deliveries@;
        let mut i: usize = 0;
        while i < chain.len()
            invariant
                i <= chain@.len(),
                deliveries@ == base + bubbled(chain@.take(i as int), Events::Scrolled, Some(delta), None),
            decreases chain@.len() - i,
        {
            deliveries.push(Delivery::Event(UiEvent { target: chain[i], kind: Events::Scrolled, delta: Some(delta), source: None }));
            proof {
                assert(base + bubbled(chain@.take(i + 1), Events::Scrolled, Some(delta), None) =~= deliveries@);
            }
            i = i + 1;
        }
        proof {
            assert(chain@.take(chain@.len() as int) =~= chain@);
            assert(before.drop_last() =~= pointer.scrolls@);
            assert(before.last() == delta);
            let rest = scroll_deliveries(chain@, pointer.scrolls@);
            assert(deliveries@ + rest =~= base + scroll_deliveries(chain@, before));
        }
    }
    proof {
        assert(scroll_deliveries(chain@, pointer.scrolls@) =~= Seq::<Delivery<V>>::empty());
        assert(deliveries@ =~= click_deliveries::<V>(all_clicks, target) + scroll_deliveries(chain@, all_scrolls));
    }
    deliver_all(runtime, deliveries.as_slice())
}

/// The element on top of a focus stack, if any.
pub open spec fn focus_top(stack: Seq<Id>) -> Option<Id> {
    if stack.len() == 0 {
        None
    } else {
        Some(stack.last())
    }
}

/// The focus stack once targets the last layout no longer holds are dropped.
pub open spec fn focus_in_layout(stack: Seq<Id>, state: &EngineState) -> Seq<Id> {
    kept_events(stack, |id: Id| state.element_ids_view().contains(id))
}

/// The deliveries of a frame's key presses: each press, in order, to the focused element, or none without focus.
pub open spec fn key_deliveries<V>(target: Option<Id>, keys: Seq<Key>) -> Seq<Delivery<V>> {
    match target {
        Some(t) => keys.map_values(|key: Key| Delivery::Key(UiKeyEvent { target: t, key })),
        None => Seq::empty(),
    }
}

/// The deliveries of a frame's text edits: each edit, in order, to the focused element, or none without focus.
pub open spec fn edit_deliveries<V>(target: Option<Id>, edits: Seq<TextEdit>) -> Seq<Delivery<V>> {
    match target {
        Some(t) => edits.map_values(|edit: TextEdit| Delivery::TextEdit(UiTextEditEvent { target: t, edit })),
        None => Seq::empty(),
    }
}

/// Delivers the queued key presses, oldest first, to the most recently focused element the last layout holds, and
/// returns the tasks they woke. Presses made without such an element are discarded.
pub fn route_key_input_events<F, V: Copy>(
    input: &mut InputQueue,
    runtime: &mut Runtime<F, V>,
    state: &EngineState,
) -> (woken: Vec<TaskId>)
    ensures
        final(input).presses_view() == Seq::<Key>::empty(),
        final(input).edits_view() == old(input).edits_view(),
        final(input).held_view() == old(input).held_view(),
        ({
            let keys = old(input).presses_view();
            let focus = if keys.len() == 0 {
                old(runtime).focus_view()
            } else {
                focus_in_layout(old(runtime).focus_view(), state)
            };
            let deliveries = key_deliveries::<V>(focus_top(focus), keys);
            &&& final(runtime).focus_view() == focus
            &&& forall|j: int|
                0 <= j < old(runtime).tasks_view().len() ==> slot_received_all(
                    old(runtime).tasks_view()[j],
                    #[trigger] final(runtime).tasks_view()[j],
                    deliveries,
                )
            &&& woken@ == woken_by(mailboxes(old(runtime).tasks_view()), old(runtime).generations_view(), deliveries)
        }),
        final(runtime).tasks_view().len() == old(runtime).tasks_view().len(),
        final(runtime).generations_view() == old(runtime).generations_view(),
        final(runtime).frame_view() == old(runtime).frame_view(),
        final(runtime).polls_view() == old(runtime).polls_view(),
        final(runtime).next_scope_view() == old(runtime).next_scope_view(),
        final(runtime).next_frame_token_view() == old(runtime).next_frame_token_view(),
{
    let keys = input.take_key_presses();
    if keys.len() == 0 {
        proof {
            assert(key_deliveries::<V>(focus_top(runtime.focus_view()), keys@) =~= Seq::<Delivery<V>>::empty());
            assert forall|j: int| 0 <= j < runtime.tasks_view().len() implies slot_received_all(
                runtime.tasks_view()[j],
                #[trigger] runtime.tasks_view()[j],
                Seq::<Delivery<V>>::empty(),
            ) by {}
        }
        return Vec::new();
    }
    let mut deliveries: Vec<Delivery<V>> = Vec::new();
    match runtime.focused_target(state) {
        Some(target) => {
            let mut i: usize = 0;
            while i < keys.len()
                invariant
                    i <= keys@.len(),
                    deliveries@ == key_deliveries::<V>(Some(target), keys@.take(i as int)),
                decreases keys@.len() - i,
            {
                deliveries.push(Delivery::Key(UiKeyEvent { target, key: keys[i] }));
                proof {
                    assert(key_deliveries::<V>(Some(target), keys@.take(i + 1)) =~= deliveries@);
                }
                i = i + 1;
            }
            proof {
                assert(keys@.take(keys@.len() as int) =~= keys@);
            }
        },
        None => {},
    }
    deliver_all(runtime, deliveries.as_slice())
}

/// Delivers the queued text edits, oldest first, to the most recently focused element the last layout holds, and
/// returns the tasks they woke. Edits made without such an element are discarded.
pub fn route_text_edit_events<F, V: Copy>(
    input: &mut InputQueue,
    runtime: &mut Runtime<F, V>,
    state: &EngineState,
) -> (woken: Vec<TaskId>)
    ensures
        final(input).edits_view() == Seq::<TextEdit>::empty(),
        final(input).presses_view() == old(input).presses_view(),
        final(input).held_view() == old(input).held_view(),
        ({
            let edits = old(input).edits_view();
            let focus = if edits.len() == 0 {
                old(runtime).focus_view()
            } else {
                focus_in_layout(old(runtime).focus_view(), state)
            };
            let deliveries = edit_deliveries::<V>(focus_top(focus), edits);
            &&& final(runtime).focus_view() == focus
            &&& forall|j: int|
                0 <= j < old(runtime).tasks_view().len() ==> slot_received_all(
                    old(runtime).tasks_view()[j],
                    #[trigger] final(runtime).tasks_view()[j],
                    deliveries,
                )
            &&& woken@ == woken_by(mailboxes(old(runtime).tasks_view()), old(runtime).generations_view(), deliveries)
        }),
        final(runtime).tasks_view().len() == old(runtime).tasks_view().len(),
        final(runtime).generations_view() == old(runtime).generations_view(),
        final(runtime).frame_view() == old(runtime).frame_view(),
        final(runtime).polls_view() == old(runtime).polls_view(),
        final(runtime).next_scope_view() == old(runtime).next_scope_view(),
        final(runtime).next_frame_token_view() == old(runtime).next_frame_token_view(),
{
    let edits = input.take_text_edits();
    if edits.len() == 0 {
        proof {
            assert(edit_deliveries::<V>(focus_top(runtime.focus_view()), edits@) =~= Seq::<Delivery<V>>::empty());
            assert forall|j: int| 0 <= j < runtime.tasks_view().len() implies slot_received_all(
                runtime.tasks_view()[j],
                #[trigger] runtime.tasks_view()[j],
                Seq::<Delivery<V>>::empty(),
            ) by {}
        }
        return Vec::new();
    }
    let mut deliveries: Vec<Delivery<V>> = Vec::new();
    match runtime.focused_target(state) {
        Some(target) => {
            let mut i: usize = 0;
            while i < edits.len()
                invariant
                    i <= edits@.len(),
                    deliveries@ == edit_deliveries::<V>(Some(target), edits@.take(i as int)),
                decreases edits@.len() - i,
            {
                deliveries.push(Delivery::TextEdit(UiTextEditEvent { target, edit: edits[i] }));
                proof {
                    assert(edit_deliveries::<V>(Some(target), edits@.take(i + 1)) =~= deliveries@);
                }
                i = i + 1;
            }
            proof {
                assert(edits@.take(edits@.len() as int) =~= edits@);
            }
        },
        None => {},
    }
    deliver_all(runtime, deliveries.as_slice())
}

/// `chain` without the elements `other` holds.
pub open spec fn missing_from(chain: Seq<Id>, other: Seq<Id>) -> Seq<Id> {
    kept_events(chain, |id: Id| !other.contains(id))
}

/// The element under the pointer followed by its ancestors, or nothing when the pointer is over no element.
pub open spec fn hover_chain<P>(tree: &RetainedTree<P>, hovered: Option<Id>) -> Seq<Id> {
    match hovered {
        Some(id) => tree.ancestors_view(id),
        None => Seq::empty(),
    }
}

/// The events a hover change from `previous` to `hovered` makes: the surfaces that held the old target but not the new
/// one hear that the pointer left, nearest first, then those that hold the new target but not the old one hear that it
/// entered. A surface holding both hears nothing.
pub open spec fn hover_deliveries<P, V>(tree: &RetainedTree<P>, previous: Option<Id>, hovered: Option<Id>) -> Seq<
    Delivery<V>,
> {
    let exited = hover_chain(tree, previous);
    let entered = hover_chain(tree, hovered);
    bubbled(missing_from(exited, entered), Events::PointerExited, None, None) + bubbled(
        missing_from(entered, exited),
        Events::PointerEntered,
        None,
        None,
    )
}

/// Returns the elements of `chain` that `other` does not hold, in order.
fn missing(chain: &Vec<Id>, other: &Vec<Id>) -> (r: Vec<Id>)
    ensures
        r@ == missing_from(chain@, other@),
{
    let mut kept: Vec<Id> = Vec::new();
    let mut i: usize = 0;
    while i < chain.len()
        invariant
            i <= chain@.len(),
            kept@ == missing_from(chain@.take(i as int), other@),
        decreases chain@.len() - i,
    {
        let id = chain[i];
        let mut found = false;
        let mut k: usize = 0;
        while k < other.len()
            invariant
                k <= other@.len(),
                found == other@.take(k as int).contains(id),
            decreases other@.len() - k,
        {
            proof {
                assert(other@.take(k + 1) =~= other@.take(k as int).push(other@[k as int]));
                vstd::seq_lib::lemma_seq_contains_after_push(other@.take(k as int), other@[k as int], id);
            }
            if other[k] == id {
                found = true;
            }
            k = k + 1;
        }
        proof {
            assert(other@.take(other@.len() as int) =~= other@);
            assert(chain@.take(i + 1).drop_last() =~= chain@.take(i as int));
            assert(chain@.take(i + 1).last() == id);
        }
        if !found {
            kept.push(id);
        }
        i = i + 1;
    }
    proof {
        assert(chain@.take(chain@.len() as int) =~= chain@);
    }
    kept
}

/// Tells the surfaces the pointer left and entered when the element under it changed from `previous` to `hovered`,
/// and returns the tasks it woke. Nothing is told when it did not change.
///
/// The caller hit-tests past a held source, so the surface beneath a dragged item is the one that hears about the
/// pointer, and the capture records it as its drop preview.
pub fn route_hover<F, P, V: Copy, Q: Copy>(
    runtime: &mut Runtime<F, V>,
    tree: &RetainedTree<P>,
    drag: &mut Drag<Q>,
    previous: Option<Id>,
    hovered: Option<Id>,
) -> (woken: Vec<TaskId>)
    requires
        tree.wf(),
    ensures
        final(drag).capture_view() == match old(drag).capture_view() {
            Some(c) => Some(DragCapture { over: hovered, ..c }),
            None => None,
        },
        ({
            let deliveries = if previous == hovered {
                Seq::<Delivery<V>>::empty()
            } else {
                hover_deliveries::<P, V>(tree, previous, hovered)
            };
            &&& forall|j: int|
                0 <= j < old(runtime).tasks_view().len() ==> slot_received_all(
                    old(runtime).tasks_view()[j],
                    #[trigger] final(runtime).tasks_view()[j],
                    deliveries,
                )
            &&& woken@ == woken_by(mailboxes(old(runtime).tasks_view()), old(runtime).generations_view(), deliveries)
        }),
        final(runtime).tasks_view().len() == old(runtime).tasks_view().len(),
        final(runtime).generations_view() == old(runtime).generations_view(),
        final(runtime).same_counters(old(runtime)),
{
    drag.set_over(hovered);
    let mut deliveries: Vec<Delivery<V>> = Vec::new();
    if previous != hovered {
        let exited_chain = match previous {
            Some(id) => tree.ancestors(id),
            None => Vec::new(),
        };
        let entered_chain = match hovered {
            Some(id) => tree.ancestors(id),
            None => Vec::new(),
        };
        let exited = missing(&exited_chain, &entered_chain);
        let entered = missing(&entered_chain, &exited_chain);
        let mut i: usize = 0;
        while i < exited.len()
            invariant
                i <= exited@.len(),
                deliveries@ == bubbled::<V>(exited@.take(i as int), Events::PointerExited, None, None),
            decreases exited@.len() - i,
        {
            deliveries.push(Delivery::Event(UiEvent { target: exited[i], kind: Events::PointerExited, delta: None, source: None }));
            proof {
                assert(bubbled::<V>(exited@.take(i + 1), Events::PointerExited, None, None) =~= deliveries@);
            }
            i = i + 1;
        }
        proof {
            assert(exited@.take(exited@.len() as int) =~= exited@);
        }
        let ghost left = deliveries@;
        let mut k: usize = 0;
        while k < entered.len()
            invariant
                k <= entered@.len(),
                deliveries@ == left + bubbled::<V>(entered@.take(k as int), Events::PointerEntered, None, None),
            decreases entered@.len() - k,
        {
            deliveries.push(Delivery::Event(UiEvent { target: entered[k], kind: Events::PointerEntered, delta: None, source: None }));
            proof {
                assert(left + bubbled::<V>(entered@.take(k + 1), Events::PointerEntered, None, None) =~= deliveries@);
            }
            k = k + 1;
        }
        proof {
            assert(entered@.take(entered@.len() as int) =~= entered@);
            assert(exited_chain@ == hover_chain(tree, previous));
            assert(entered_chain@ == hover_chain(tree, hovered));
        }
    }
    deliver_all(runtime, deliveries.as_slice())
}

/// Every element `kept_events` keeps passes its test.
proof fn lemma_kept_pass<E>(events: Seq<E>, keep: spec_fn(E) -> bool)
    ensures
        forall|k: int| 0 <= k < kept_events(events, keep).len() ==> keep(#[trigger] kept_events(events, keep)[k]),
    decreases events.len(),
{
    if events.len() > 0 {
        lemma_kept_pass(events.drop_last(), keep);
        let kept = kept_events(events, keep);
        let rest = kept_events(events.drop_last(), keep);
        assert forall|k: int| 0 <= k < kept.len() implies keep(#[trigger] kept[k]) by {
            if k < rest.len() {
                assert(kept[k] == rest[k]);
            }
        }
    }
}

/// Every wait `kept_waits` keeps passes its test.
proof fn lemma_kept_waits_pass(waits: Seq<Registration>, keep: spec_fn(Registration) -> bool)
    ensures
        forall|k: int| 0 <= k < kept_waits(waits, keep).len() ==> keep(#[trigger] kept_waits(waits, keep)[k]),
    decreases waits.len(),
{
    if waits.len() > 0 {
        lemma_kept_waits_pass(waits.drop_last(), keep);
        let kept = kept_waits(waits, keep);
        let rest = kept_waits(waits.drop_last(), keep);
        assert forall|k: int| 0 <= k < kept.len() implies keep(#[trigger] kept[k]) by {
            if k < rest.len() {
                assert(kept[k] == rest[k]);
            }
        }
    }
}

/// A hover change tells nothing to a surface that holds both the old and the new target: the pointer stays inside it.
pub proof fn a_surface_holding_both_targets_hears_nothing<P, V>(
    tree: &RetainedTree<P>,
    previous: Option<Id>,
    hovered: Option<Id>,
    surface: Id,
)
    requires
        hover_chain(tree, previous).contains(surface),
        hover_chain(tree, hovered).contains(surface),
    ensures
        forall|k: int|
            0 <= k < hover_deliveries::<P, V>(tree, previous, hovered).len() ==> match #[trigger] hover_deliveries::<P, V>(
                tree,
                previous,
                hovered,
            )[k] {
                Delivery::Event(e) => e.target != surface,
                _ => false,
            },
{
    let exited_chain = hover_chain(tree, previous);
    let entered_chain = hover_chain(tree, hovered);
    let exited = missing_from(exited_chain, entered_chain);
    let entered = missing_from(entered_chain, exited_chain);
    lemma_kept_pass(exited_chain, |id: Id| !entered_chain.contains(id));
    lemma_kept_pass(entered_chain, |id: Id| !exited_chain.contains(id));
    let all = hover_deliveries::<P, V>(tree, previous, hovered);
    assert forall|k: int| 0 <= k < all.len() implies match #[trigger] all[k] {
        Delivery::Event(e) => e.target != surface,
        _ => false,
    } by {
        let first = bubbled::<V>(exited, Events::PointerExited, None, None);
        if k < first.len() {
            assert(all[k] == first[k]);
            assert(!entered_chain.contains(exited[k]));
        } else {
            assert(all[k] == bubbled::<V>(entered, Events::PointerEntered, None, None)[k - first.len()]);
            assert(!exited_chain.contains(entered[k - first.len()]));
        }
    }
}

/// Input that arrives while a task does not wait for it is discarded for that task, and what an inbox already holds
/// stays there: a delivery only ever appends.
pub proof fn input_nobody_waits_for_is_discarded<V>(
    m: (Seq<Registration>, Seq<UiEvent<V>>, Seq<UiKeyEvent>, Seq<UiTextEditEvent>),
    delivery: Delivery<V>,
)
    ensures
        !waits_for(m.0, delivery_key(delivery)) ==> receive(m, delivery) == m,
        receive(m, delivery).1.take(m.1.len() as int) == m.1,
        receive(m, delivery).2.take(m.2.len() as int) == m.2,
        receive(m, delivery).3.take(m.3.len() as int) == m.3,
{
    let r = receive(m, delivery);
    assert(r.1.take(m.1.len() as int) =~= m.1);
    assert(r.2.take(m.2.len() as int) =~= m.2);
    assert(r.3.take(m.3.len() as int) =~= m.3);
}

/// A wait ends with the input it receives: delivering the same input again reaches the task no more.
pub proof fn a_wait_ends_with_the_input_it_receives<V>(
    m: (Seq<Registration>, Seq<UiEvent<V>>, Seq<UiKeyEvent>, Seq<UiTextEditEvent>),
    delivery: Delivery<V>,
)
    ensures
        !waits_for(receive(m, delivery).0, delivery_key(delivery)),
        receive(receive(m, delivery), delivery) == receive(m, delivery),
{
    let key = delivery_key(delivery);
    if waits_for(m.0, key) {
        lemma_kept_waits_pass(m.0, other_than(key));
        let kept = kept_waits(m.0, other_than(key));
        if waits_for(kept, key) {
            let i = choose|i: int| 0 <= i < kept.len() && kept[i].key == key;
            assert((other_than(key))(kept[i]));
        }
    }
}

/// The event that tells a drag source its gesture ended, with the surface it was dropped on, if any.
pub open spec fn drag_ended<V>(source: Id, dropped_on: Option<Id>) -> Delivery<V> {
    Delivery::Event(UiEvent { target: source, kind: Events::DragEnded, delta: None, source: dropped_on })
}

/// The events a release at `position` makes at once: a held source that yields no drop hears that its gesture ended.
pub open spec fn release_deliveries<P, V>(capture: Option<DragCapture<P>>, position: P, crossed: bool) -> Seq<Delivery<V>> {
    match capture {
        Some(c) => if drop_of(Some(c), position, crossed) is None {
            seq![drag_ended::<V>(c.source, None)]
        } else {
            Seq::empty()
        },
        None => Seq::empty(),
    }
}

/// The events cancelling makes: a held source hears that its gesture ended, without a drop.
pub open spec fn cancel_deliveries<P, V>(capture: Option<DragCapture<P>>) -> Seq<Delivery<V>> {
    match capture {
        Some(c) => seq![drag_ended::<V>(c.source, None)],
        None => Seq::empty(),
    }
}

/// Whether `delivery` tells a source its gesture ended.
pub open spec fn ends_a_gesture<V>(delivery: Delivery<V>) -> bool {
    delivery matches Delivery::Event(e) && e.kind == Events::DragEnded
}

/// Grabs `source`, the surface under the pointer if any, for a pointer gesture pressed at `position`, and tells it it
/// was grabbed. Returns whether it was grabbed, with the tasks the event woke: nothing is grabbed without a surface
/// or while another source is held.
pub fn press<F, V: Copy, P: Copy>(
    runtime: &mut Runtime<F, V>,
    drag: &mut Drag<P>,
    source: Option<Id>,
    position: P,
) -> (r: (bool, Vec<TaskId>))
    ensures
        r.0 == (source is Some && old(drag).capture_view() is None),
        ({
            let deliveries = if r.0 {
                seq![Delivery::Event(UiEvent { target: source->0, kind: Events::Grabbed, delta: None, source: None })]
            } else {
                Seq::<Delivery<V>>::empty()
            };
            &&& forall|j: int|
                0 <= j < old(runtime).tasks_view().len() ==> slot_received_all(
                    old(runtime).tasks_view()[j],
                    #[trigger] final(runtime).tasks_view()[j],
                    deliveries,
                )
            &&& r.1@ == woken_by(mailboxes(old(runtime).tasks_view()), old(runtime).generations_view(), deliveries)
        }),
        r.0 ==> (final(drag).capture_view() matches Some(c) && c.source == source->0 && c.origin == position
            && c.position == position && !c.dragging && c.over is None),
        !r.0 ==> final(drag).capture_view() == old(drag).capture_view(),
        final(runtime).tasks_view().len() == old(runtime).tasks_view().len(),
        final(runtime).generations_view() == old(runtime).generations_view(),
        final(runtime).same_counters(old(runtime)),
{
    let mut deliveries: Vec<Delivery<V>> = Vec::new();
    let grabbed = match source {
        Some(id) => {
            if drag.press(id, position) {
                deliveries.push(Delivery::Event(UiEvent { target: id, kind: Events::Grabbed, delta: None, source: None }));
                true
            } else {
                false
            }
        },
        None => false,
    };
    proof {
        if grabbed {
            assert(deliveries@ =~= seq![Delivery::Event(UiEvent { target: source->0, kind: Events::Grabbed, delta: None, source: None })]);
        } else {
            assert(deliveries@ =~= Seq::<Delivery<V>>::empty());
        }
    }
    let woken = deliver_all(runtime, deliveries.as_slice());
    (grabbed, woken)
}

/// Releases the captured pointer at `position`, where `crossed` tells whether that lies at least the movement
/// threshold away from the press position. Returns the drop, which only an activated drag yields, with the tasks the
/// release woke: a release without a drop tells the source at once that its gesture ended; a drop is queued for
/// [`route_drops`] to deliver before components next poll.
pub fn release<F, V: Copy, P: Copy>(
    runtime: &mut Runtime<F, V>,
    drag: &mut Drag<P>,
    pointer: &mut PointerQueue<V, P>,
    position: P,
    crossed: bool,
) -> (r: (Option<DragDrop<P>>, Vec<TaskId>))
    ensures
        r.0 == drop_of(old(drag).capture_view(), position, crossed),
        final(drag).capture_view() is None,
        final(pointer).drops@ == match r.0 {
            Some(d) => old(pointer).drops@.push(d),
            None => old(pointer).drops@,
        },
        final(pointer).clicking == old(pointer).clicking,
        final(pointer).clicks@ == old(pointer).clicks@,
        final(pointer).scrolls@ == old(pointer).scrolls@,
        ({
            let deliveries = release_deliveries::<P, V>(old(drag).capture_view(), position, crossed);
            &&& forall|j: int|
                0 <= j < old(runtime).tasks_view().len() ==> slot_received_all(
                    old(runtime).tasks_view()[j],
                    #[trigger] final(runtime).tasks_view()[j],
                    deliveries,
                )
            &&& r.1@ == woken_by(mailboxes(old(runtime).tasks_view()), old(runtime).generations_view(), deliveries)
        }),
        final(runtime).tasks_view().len() == old(runtime).tasks_view().len(),
        final(runtime).generations_view() == old(runtime).generations_view(),
        final(runtime).same_counters(old(runtime)),
{
    let held = drag.capture();
    let dropped = drag.release(position, crossed);
    match dropped {
        Some(d) => pointer.drops.push(d),
        None => {},
    }
    let mut deliveries: Vec<Delivery<V>> = Vec::new();
    match held {
        Some(capture) => {
            if dropped.is_none() {
                deliveries.push(Delivery::Event(UiEvent { target: capture.source, kind: Events::DragEnded, delta: None, source: None }));
            }
        },
        None => {},
    }
    proof {
        match held {
            Some(c) => if dropped is None {
                assert(deliveries@ =~= seq![drag_ended::<V>(c.source, None)]);
            } else {
                assert(deliveries@ =~= Seq::<Delivery<V>>::empty());
            },
            None => {
                assert(deliveries@ =~= Seq::<Delivery<V>>::empty());
            },
        }
    }
    let woken = deliver_all(runtime, deliveries.as_slice());
    (dropped, woken)
}

/// The events a drop of `source` on `target` makes: the drop bubbles from the target through its ancestors with its
/// source set, then the source hears that its gesture ended on the target.
pub open spec fn drop_deliveries<P, V>(tree: &RetainedTree<P>, source: Id, target: Option<Id>) -> Seq<Delivery<V>> {
    let dropped = match target {
        Some(t) => bubbled(tree.ancestors_view(t), Events::Dropped, None, Some(source)),
        None => Seq::empty(),
    };
    dropped.push(drag_ended::<V>(source, target))
}

/// Appends the events a drop of `source` on `target` makes to `deliveries`.
fn push_drop_deliveries<P, V: Copy>(deliveries: &mut Vec<Delivery<V>>, tree: &RetainedTree<P>, source: Id, target: Option<Id>)
    requires
        tree.wf(),
    ensures
        final(deliveries)@ == old(deliveries)@ + drop_deliveries::<P, V>(tree, source, target),
{
    let ghost base = deliveries@;
    match target {
        Some(t) => {
            let chain = tree.ancestors(t);
            let mut i: usize = 0;
            while i < chain.len()
                invariant
                    i <= chain@.len(),
                    deliveries@ == base + bubbled::<V>(chain@.take(i as int), Events::Dropped, None, Some(source)),
                decreases chain@.len() - i,
            {
                deliveries.push(Delivery::Event(UiEvent { target: chain[i], kind: Events::Dropped, delta: None, source: Some(source) }));
                proof {
                    assert(base + bubbled::<V>(chain@.take(i + 1), Events::Dropped, None, Some(source)) =~= deliveries@);
                }
                i = i + 1;
            }
            proof {
                assert(chain@.take(chain@.len() as int) =~= chain@);
            }
        },
        None => {
            proof {
                assert(deliveries@ =~= base + Seq::<Delivery<V>>::empty());
            }
        },
    }
    let ghost dropped = deliveries@;
    deliveries.push(Delivery::Event(UiEvent { target: source, kind: Events::DragEnded, delta: None, source: target }));
    proof {
        assert(deliveries@ =~= base + drop_deliveries::<P, V>(tree, source, target));
    }
}

/// Delivers a released drop of `source` on `target`, the surface under the release point other than the source, if
/// any, and returns the tasks it woke. The source never receives its own drop.
pub fn route_drop<F, P, V: Copy>(runtime: &mut Runtime<F, V>, tree: &RetainedTree<P>, source: Id, target: Option<Id>) -> (woken: Vec<TaskId>)
    requires
        tree.wf(),
    ensures
        forall|j: int|
            0 <= j < old(runtime).tasks_view().len() ==> slot_received_all(
                old(runtime).tasks_view()[j],
                #[trigger] final(runtime).tasks_view()[j],
                drop_deliveries::<P, V>(tree, source, target),
            ),
        woken@ == woken_by(
            mailboxes(old(runtime).tasks_view()),
            old(runtime).generations_view(),
            drop_deliveries::<P, V>(tree, source, target),
        ),
        final(runtime).tasks_view().len() == old(runtime).tasks_view().len(),
        final(runtime).generations_view() == old(runtime).generations_view(),
        final(runtime).same_counters(old(runtime)),
{
    let mut deliveries: Vec<Delivery<V>> = Vec::new();
    push_drop_deliveries(&mut deliveries, tree, source, target);
    proof {
        assert(deliveries@ =~= drop_deliveries::<P, V>(tree, source, target));
    }
    deliver_all(runtime, deliveries.as_slice())
}

/// The events the queued drops `drops` make, oldest first, where `targets[i]` is the surface the `i`th one landed on.
pub open spec fn drops_deliveries<P, Q, V>(
    tree: &RetainedTree<P>,
    drops: Seq<DragDrop<Q>>,
    targets: Seq<Option<Id>>,
) -> Seq<Delivery<V>>
    decreases drops.len(),
{
    if drops.len() == 0 || targets.len() == 0 {
        Seq::empty()
    } else {
        drops_deliveries(tree, drops.drop_last(), targets.drop_last()) + drop_deliveries::<P, V>(
            tree,
            drops.last().source,
            targets.last(),
        )
    }
}

/// Delivers the queued drops, oldest first, before components poll, so a component sees a drop and the cleared
/// capture together, and empties the queue. `target_of` finds the surface under a drop's release point other than its
/// source, from the geometry the release was measured against. Returns the surface each drop landed on, with the tasks
/// the drops woke.
pub fn route_drops<F, P, V: Copy, Q: Copy, T: Fn(DragDrop<Q>) -> Option<Id>>(
    runtime: &mut Runtime<F, V>,
    tree: &RetainedTree<P>,
    pointer: &mut PointerQueue<V, Q>,
    target_of: T,
) -> (r: (Vec<Option<Id>>, Vec<TaskId>))
    requires
        tree.wf(),
        forall|d: DragDrop<Q>| target_of.requires((d,)),
    ensures
        r.0@.len() == old(pointer).drops@.len(),
        forall|i: int| 0 <= i < r.0@.len() ==> target_of.ensures((old(pointer).drops@[i],), #[trigger] r.0@[i]),
        final(pointer).drops@.len() == 0,
        final(pointer).clicking == old(pointer).clicking,
        final(pointer).clicks@ == old(pointer).clicks@,
        final(pointer).scrolls@ == old(pointer).scrolls@,
        forall|j: int|
            0 <= j < old(runtime).tasks_view().len() ==> slot_received_all(
                old(runtime).tasks_view()[j],
                #[trigger] final(runtime).tasks_view()[j],
                drops_deliveries::<P, Q, V>(tree, old(pointer).drops@, r.0@),
            ),
        r.1@ == woken_by(
            mailboxes(old(runtime).tasks_view()),
            old(runtime).generations_view(),
            drops_deliveries::<P, Q, V>(tree, old(pointer).drops@, r.0@),
        ),
        final(runtime).tasks_view().len() == old(runtime).tasks_view().len(),
        final(runtime).generations_view() == old(runtime).generations_view(),
        final(runtime).same_counters(old(runtime)),
{
    let mut targets: Vec<Option<Id>> = Vec::new();
    let mut deliveries: Vec<Delivery<V>> = Vec::new();
    let mut i: usize = 0;
    while i < pointer.drops.len()
        invariant
            tree.wf(),
            forall|d: DragDrop<Q>| target_of.requires((d,)),
            i <= pointer.drops@.len(),
            pointer.drops@ == old(pointer).drops@,
            targets@.len() == i,
            forall|k: int| 0 <= k < i ==> target_of.ensures((pointer.drops@[k],), #[trigger] targets@[k]),
            deliveries@ == drops_deliveries::<P, Q, V>(tree, pointer.drops@.take(i as int), targets@),
        decreases pointer.drops@.len() - i,
    {
        let d = pointer.drops[i];
        let target = target_of(d);
        let ghost before = targets@;
        targets.push(target);
        push_drop_deliveries(&mut deliveries, tree, d.source, target);
        proof {
            assert(pointer.drops@.take(i + 1).drop_last() =~= pointer.drops@.take(i as int));
            assert(targets@.drop_last() =~= before);
        }
        i = i + 1;
    }
    proof {
        assert(pointer.drops@.take(i as int) =~= pointer.drops@);
    }
    pointer.drops.clear();
    let woken = deliver_all(runtime, deliveries.as_slice());
    (targets, woken)
}

/// Ends the interaction in progress, as when the window loses focus: queued clicks, scrolls, drops, key presses, and
/// text edits are discarded, held keys and the button are released, and a held source is restored without a drop and
/// hears that its gesture ended. Returns that source, if any, with the tasks the event woke.
pub fn cancel<F, V: Copy, P: Copy>(
    runtime: &mut Runtime<F, V>,
    input: &mut InputQueue,
    pointer: &mut PointerQueue<V, P>,
    drag: &mut Drag<P>,
) -> (r: (Option<Id>, Vec<TaskId>))
    ensures
        !final(pointer).clicking,
        final(pointer).clicks@.len() == 0,
        final(pointer).scrolls@.len() == 0,
        final(pointer).drops@.len() == 0,
        final(input).presses_view() == Seq::<Key>::empty(),
        final(input).edits_view() == Seq::<TextEdit>::empty(),
        final(input).held_view() == Set::<Key>::empty(),
        final(drag).capture_view() is None,
        r.0 == match old(drag).capture_view() {
            Some(c) => Some(c.source),
            None => None,
        },
        ({
            let deliveries = cancel_deliveries::<P, V>(old(drag).capture_view());
            &&& forall|j: int|
                0 <= j < old(runtime).tasks_view().len() ==> slot_received_all(
                    old(runtime).tasks_view()[j],
                    #[trigger] final(runtime).tasks_view()[j],
                    deliveries,
                )
            &&& r.1@ == woken_by(mailboxes(old(runtime).tasks_view()), old(runtime).generations_view(), deliveries)
        }),
        final(runtime).tasks_view().len() == old(runtime).tasks_view().len(),
        final(runtime).generations_view() == old(runtime).generations_view(),
        final(runtime).same_counters(old(runtime)),
{
    input.cancel();
    pointer.cancel();
    let source = drag.cancel();
    let mut deliveries: Vec<Delivery<V>> = Vec::new();
    match source {
        Some(id) => {
            deliveries.push(Delivery::Event(UiEvent { target: id, kind: Events::DragEnded, delta: None, source: None }));
            proof {
                assert(deliveries@ =~= seq![drag_ended::<V>(id, None)]);
            }
        },
        None => {
            proof {
                assert(deliveries@ =~= Seq::<Delivery<V>>::empty());
            }
        },
    }
    let woken = deliver_all(runtime, deliveries.as_slice());
    (source, woken)
}

/// Every grab ends exactly once, after its drop: releasing a held source, then delivering the drop it yields, if any,
/// on the surface `target` under the release point, tells the source once that its gesture ended, last, and on the
/// surface it was dropped on, or on none for a click; cancelling tells it once, without a drop.
pub proof fn every_grab_ends_once<P, Q, V>(
    tree: &RetainedTree<P>,
    capture: DragCapture<Q>,
    position: Q,
    crossed: bool,
    target: Option<Id>,
)
    ensures
        ({
            let dropped = drop_of(Some(capture), position, crossed);
            let all = release_deliveries::<Q, V>(Some(capture), position, crossed) + match dropped {
                Some(d) => drop_deliveries::<P, V>(tree, d.source, target),
                None => Seq::empty(),
            };
            &&& all.len() > 0
            &&& all.last() == drag_ended::<V>(capture.source, if dropped is Some { target } else { None })
            &&& forall|i: int| 0 <= i < all.len() - 1 ==> !ends_a_gesture(#[trigger] all[i])
        }),
        cancel_deliveries::<Q, V>(Some(capture)) == seq![drag_ended::<V>(capture.source, None)],
{
    let dropped = drop_of(Some(capture), position, crossed);
    let all = release_deliveries::<Q, V>(Some(capture), position, crossed) + match dropped {
        Some(d) => drop_deliveries::<P, V>(tree, d.source, target),
        None => Seq::empty(),
    };
    match dropped {
        Some(d) => {
            let chain = match target {
                Some(t) => bubbled::<V>(tree.ancestors_view(t), Events::Dropped, None, Some(d.source)),
                None => Seq::empty(),
            };
            assert(all =~= chain.push(drag_ended::<V>(capture.source, target)));
            assert forall|i: int| 0 <= i < all.len() - 1 implies !ends_a_gesture(#[trigger] all[i]) by {
                assert(all[i] == chain[i]);
            }
        },
        None => {
            assert(all =~= seq![drag_ended::<V>(capture.source, None)]);
        },
    }
}

} // verus!
