//! How the engine applies the structural changes components make.
use vstd::prelude::*;

use crate::evaluation_context::UiCommand;
use crate::retained_tree::{all_revisions, declared_under, kept_elements, kept_relations, without_child, ReparentRefusal, RetainedTree};
use crate::element::Id;
use crate::runtime::{declared_in_scope, kept_events, owned_by, selected_task_values, slot_without_targets, Runtime, UiTask};

verus! {

/// Applies one command to the tree and the runtime. Returns the tasks it ended, so the caller drops them, and why a
/// move was refused, so the caller can report it.
///
/// Removing a scope removes everything declared under it, with the focus, waits, and input addressed to the removed
/// elements, and ends the tasks declared there, or with an owner, the tasks that mounted scope owns. Invalid requests,
/// such as moving a removed element, change nothing.
pub fn apply<P, F, V: Copy>(command: UiCommand, runtime: &mut Runtime<F, V>, tree: &mut RetainedTree<P>) -> (r: (
    Vec<UiTask<F, V>>,
    Option<ReparentRefusal>,
))
    requires
        old(tree).wf(),
        old(tree).revisions_view().revision < u64::MAX,
    ensures
        final(tree).wf(),
        match command {
            UiCommand::Remove { path, owner } => {
                let selected: spec_fn(UiTask<F, V>) -> bool = match owner {
                    Some(o) => owned_by(o),
                    None => declared_in_scope(old(tree).declarations_view(), path),
                };
                let removed = final(tree).removed_view();
                &&& removed == if path == crate::retained_tree::ROOT_PATH {
                    Set::<Id>::empty()
                } else {
                    old(tree).scope_ids(path)
                }
                &&& final(tree).elements_view() == if path == crate::retained_tree::ROOT_PATH {
                    old(tree).elements_view()
                } else {
                    kept_elements(old(tree).elements_view(), old(tree).declarations_view(), path)
                }
                &&& r.0@ == selected_task_values(old(runtime).tasks_view(), selected)
                &&& r.1 is None
                &&& final(tree).declarations_view() == old(tree).declarations_view()
                &&& final(tree).declared_view() == old(tree).declared_view().difference(removed)
                &&& final(tree).relations_view() == if removed.is_empty() {
                    old(tree).relations_view()
                } else {
                    kept_relations(old(tree).relations_view(), removed)
                }
                &&& final(tree).revisions_view() == if removed.is_empty() {
                    old(tree).revisions_view()
                } else {
                    all_revisions((old(tree).revisions_view().revision + 1) as u64)
                }
                &&& final(runtime).focus_view() == if removed.is_empty() {
                    old(runtime).focus_view()
                } else {
                    kept_events(old(runtime).focus_view(), |id: Id| !removed.contains(id))
                }
                &&& final(runtime).tasks_view().len() == old(runtime).tasks_view().len()
                &&& forall|j: int|
                    0 <= j < old(runtime).tasks_view().len() ==> match old(runtime).tasks_view()[j] {
                        Some(t) => if selected(t) {
                            (#[trigger] final(runtime).tasks_view()[j]) is None
                        } else if removed.is_empty() {
                            final(runtime).tasks_view()[j] == Some(t)
                        } else {
                            slot_without_targets(Some(t), final(runtime).tasks_view()[j], removed)
                        },
                        None => final(runtime).tasks_view()[j] is None,
                    }
            },
            UiCommand::Reparent { child, parent } => {
                let refused = old(tree).reparent_refusal(child, parent) is Some;
                &&& r.0@.len() == 0
                &&& r.1 == old(tree).reparent_refusal(child, parent)
                &&& *final(runtime) == *old(runtime)
                &&& final(tree).elements_view() == old(tree).elements_view()
                &&& final(tree).relations_view() == if refused || old(tree).parent_of(child) == Some(parent) {
                    old(tree).relations_view()
                } else {
                    without_child(old(tree).relations_view(), child).push((parent, child))
                }
                &&& final(tree).declarations_view() == old(tree).declarations_view()
                &&& final(tree).declared_view() == old(tree).declared_view()
                &&& final(tree).revisions_view() == if refused || old(tree).parent_of(child) == Some(parent) {
                    old(tree).revisions_view()
                } else {
                    all_revisions((old(tree).revisions_view().revision + 1) as u64)
                }
            },
            UiCommand::Focus { target, focused } => {
                &&& r.0@.len() == 0
                &&& r.1 is None
                &&& final(runtime).focus_view() == if focused {
                    crate::runtime::without_focus(old(runtime).focus_view(), target).push(target)
                } else {
                    crate::runtime::without_focus(old(runtime).focus_view(), target)
                }
                &&& final(runtime).tasks_view() == old(runtime).tasks_view()
                &&& *final(tree) == *old(tree)
            },
        },
{
    match command {
        UiCommand::Remove { path, owner } => {
            let ghost before = runtime.tasks_view();
            let ended = match owner {
                Some(owner) => runtime.detach_owned(owner),
                None => runtime.detach_declared_under(tree, path),
            };
            let ghost detached = runtime.tasks_view();
            let removed = tree.remove_scope(path);
            if !removed.is_empty() {
                runtime.remove_targets(removed);
            }
            proof {
                let selected: spec_fn(UiTask<F, V>) -> bool = match owner {
                    Some(o) => owned_by(o),
                    None => declared_in_scope(old(tree).declarations_view(), path),
                };
                assert forall|j: int| 0 <= j < before.len() implies match before[j] {
                    Some(t) => if selected(t) {
                        (#[trigger] runtime.tasks_view()[j]) is None
                    } else if removed@.is_empty() {
                        runtime.tasks_view()[j] == Some(t)
                    } else {
                        slot_without_targets(Some(t), runtime.tasks_view()[j], removed@)
                    },
                    None => runtime.tasks_view()[j] is None,
                } by {
                    assert(detached[j] == match before[j] {
                        Some(t) => if selected(t) { None } else { Some(t) },
                        None => None,
                    });
                }
            }
            (ended, None)
        },
        UiCommand::Reparent { child, parent } => {
            let refusal = tree.reparent(child, parent);
            (Vec::new(), refusal)
        },
        UiCommand::Focus { target, focused } => {
            if focused {
                runtime.request_focus(target);
            } else {
                runtime.release_focus(target);
            }
            (Vec::new(), None)
        },
    }
}

} // verus!
