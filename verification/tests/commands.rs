use byte_engine::commands::apply;
use byte_engine::context::{slot_path, ElementKey};
use byte_engine::evaluation_context::UiCommand;
use byte_engine::primitive::Events;
use byte_engine::retained_tree::{ReparentRefusal, RetainedTree, ROOT_PATH};
use byte_engine::runtime::{Runtime, WaitKey};

type Delta = (f32, f32);

fn element(_: u64) -> &'static str {
    "element"
}

#[test]
fn removing_a_mounted_scope_keeps_tasks_of_a_live_scope_with_the_same_path() {
    let mut tree: RetainedTree<&str> = RetainedTree::new();
    let mut runtime: Runtime<&str, Delta> = Runtime::new();
    let root = slot_path(ROOT_PATH, ElementKey::from("root"));
    tree.add_element(None, ROOT_PATH, root, element);
    // Two mounts declared under the same parent and name share a path, but not an owner.
    let toast = slot_path(root, ElementKey::from("toast"));
    tree.declare_scope(toast, root);
    let first_scope = runtime.next_scope();
    let second_scope = runtime.next_scope();
    let first = runtime.spawn(first_scope, toast, "first ticker");
    let second = runtime.spawn(second_scope, toast, "second ticker");

    let (ended, _) = apply(UiCommand::Remove { path: toast, owner: Some(first_scope) }, &mut runtime, &mut tree);
    assert_eq!(ended.len(), 1);
    assert_eq!(ended[0].future, Some("first ticker"));
    assert!(runtime.task(first).is_none());
    assert!(runtime.task(second).is_some());
}

#[test]
fn removing_an_element_drops_its_subtree_and_ends_components_declared_under_it() {
    let mut tree: RetainedTree<&str> = RetainedTree::new();
    let mut runtime: Runtime<&str, Delta> = Runtime::new();
    let root = slot_path(ROOT_PATH, ElementKey::from("root"));
    let menu = slot_path(root, ElementKey::from("menu"));
    let item = slot_path(menu, ElementKey::from("item"));
    let ticker = slot_path(menu, ElementKey::from("ticker"));
    tree.add_element(None, ROOT_PATH, root, element);
    tree.add_element(Some(root), root, menu, element);
    tree.add_element(Some(menu), menu, item, element);
    tree.declare_scope(ticker, menu);
    let scope = runtime.next_scope();
    let inner = runtime.spawn(scope, ticker, "ticker");
    let outer = runtime.spawn(scope, root, "root component");
    let poll = runtime.next_poll();
    runtime.wait_for(outer, WaitKey::Event(item, Events::Actuated), poll);
    runtime.request_focus(item);

    let (ended, _) = apply(UiCommand::Remove { path: menu, owner: None }, &mut runtime, &mut tree);
    assert_eq!(ended.len(), 1);
    assert_eq!(ended[0].path, ticker);
    assert!(runtime.task(inner).is_none());
    assert!(runtime.task(outer).is_some());
    assert_eq!(tree.len(), 1);
    // The surviving task no longer waits for the removed element.
    assert!(runtime.task(outer).expect("outer").waits.is_empty());

    // Removing it again removes nothing and ends nothing.
    let (again, _) = apply(UiCommand::Remove { path: menu, owner: None }, &mut runtime, &mut tree);
    assert!(again.is_empty());
    assert_eq!(tree.len(), 1);
}

#[test]
fn focus_and_reparent_commands_change_only_their_part() {
    let mut tree: RetainedTree<&str> = RetainedTree::new();
    let mut runtime: Runtime<&str, Delta> = Runtime::new();
    let root = slot_path(ROOT_PATH, ElementKey::from("root"));
    let a = slot_path(root, ElementKey::from("a"));
    let b = slot_path(root, ElementKey::from("b"));
    tree.add_element(None, ROOT_PATH, root, element);
    tree.add_element(Some(root), root, a, element);
    tree.add_element(Some(root), root, b, element);

    assert!(apply(UiCommand::Focus { target: a, focused: true }, &mut runtime, &mut tree).0.is_empty());
    let (ended, refusal) = apply(UiCommand::Reparent { child: b, parent: a }, &mut runtime, &mut tree);
    assert!(ended.is_empty());
    assert_eq!(refusal, None);
    let b_index = tree.element_index(b).expect("b");
    let a_index = tree.element_index(a).expect("a");
    assert_eq!(tree.parent_index_of(b_index), Some(a_index));
    assert!(apply(UiCommand::Focus { target: a, focused: false }, &mut runtime, &mut tree).0.is_empty());
}

#[test]
fn a_refused_reparent_says_why_and_keeps_the_tree() {
    let mut tree: RetainedTree<&str> = RetainedTree::new();
    let mut runtime: Runtime<&str, Delta> = Runtime::new();
    let root = slot_path(ROOT_PATH, ElementKey::from("root"));
    let a = slot_path(root, ElementKey::from("a"));
    tree.add_element(None, ROOT_PATH, root, element);
    tree.add_element(Some(root), root, a, element);
    let revision = tree.revision();

    let (_, refusal) = apply(UiCommand::Reparent { child: root, parent: a }, &mut runtime, &mut tree);
    assert_eq!(refusal, Some(ReparentRefusal::UnderItself));
    let (_, refusal) = apply(UiCommand::Reparent { child: a, parent: 4242 }, &mut runtime, &mut tree);
    assert_eq!(refusal, Some(ReparentRefusal::Missing));
    assert_eq!(tree.revision(), revision);
    let a_index = tree.element_index(a).expect("a");
    let root_index = tree.element_index(root).expect("root");
    assert_eq!(tree.parent_index_of(a_index), Some(root_index));
}

#[test]
fn a_reparent_keeps_the_declaration_so_the_scope_still_removes_it() {
    let mut tree: RetainedTree<&str> = RetainedTree::new();
    let mut runtime: Runtime<&str, Delta> = Runtime::new();
    let root = slot_path(ROOT_PATH, ElementKey::from("root"));
    let panel = slot_path(root, ElementKey::from("panel"));
    let label = slot_path(panel, ElementKey::from("label"));
    let other = slot_path(root, ElementKey::from("other"));
    tree.add_element(None, ROOT_PATH, root, element);
    tree.add_element(Some(root), root, panel, element);
    tree.add_element(Some(panel), panel, label, element);
    tree.add_element(Some(root), root, other, element);
    let revision = tree.revision();

    let (_, refusal) = apply(UiCommand::Reparent { child: label, parent: other }, &mut runtime, &mut tree);
    assert_eq!(refusal, None);
    assert_eq!(tree.revision(), revision + 1);
    assert!(tree.path_is_under(label, panel));

    apply(UiCommand::Remove { path: panel, owner: None }, &mut runtime, &mut tree);
    assert!(tree.element_index(label).is_none());
    assert!(tree.element_index(other).is_some());
}
