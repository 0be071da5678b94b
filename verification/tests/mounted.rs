use byte_engine::commands::apply;
use byte_engine::context::{slot_path, ElementKey};
use byte_engine::evaluation_context::{EvaluationContext, ScopeId, UiCommand};
use byte_engine::retained_tree::{RetainedTree, ROOT_PATH};
use byte_engine::runtime::Runtime;

fn element(_: u64) -> &'static str {
    "element"
}

#[test]
fn a_mounted_component_starts_once_and_removes_its_scope_when_it_returns() {
    let mut tree: RetainedTree<&str> = RetainedTree::new();
    let mut runtime: Runtime<&str, ()> = Runtime::new();
    let root = EvaluationContext::<()>::new_root();
    let frame = slot_path(ROOT_PATH, ElementKey::from("frame"));
    tree.add_element(None, ROOT_PATH, frame, element);
    let ctx = root.declared(ElementKey::from("frame"));
    let mut modal = ctx.mount(ElementKey::from("modal"), "dialog");
    let path = slot_path(frame, ElementKey::from("modal"));
    assert_eq!(modal.path, path);
    assert_eq!(modal.parent_path, frame);
    assert!(!modal.is_terminated());

    // The first poll starts the component on a context of its own, owned by a fresh scope.
    let (component, scoped) = modal.start(&mut runtime, &mut tree).expect("started");
    assert_eq!(component, "dialog");
    assert_eq!(scoped.owner, ScopeId(1));
    assert_eq!(scoped.path, path);
    assert_eq!(scoped.id, frame);
    assert!(tree.path_is_under(path, frame));
    // Later polls start nothing.
    assert!(modal.start(&mut runtime, &mut tree).is_none());

    let task = runtime.spawn(scoped.owner, path, "dialog task");
    let removal = modal.finish().expect("removal");
    assert_eq!(removal, UiCommand::Remove { path, owner: Some(ScopeId(1)) });
    assert!(modal.is_terminated());
    // Completing removed the scope; dropping the value afterwards removes nothing more.
    assert_eq!(modal.drop(), None);
    assert_eq!(modal.finish(), None);

    let (ended, _) = apply(removal, &mut runtime, &mut tree);
    assert_eq!(ended.len(), 1);
    assert!(runtime.task(task).is_none());
}

#[test]
fn dropping_a_pending_mounted_component_removes_its_scope() {
    let mut tree: RetainedTree<&str> = RetainedTree::new();
    let mut runtime: Runtime<&str, ()> = Runtime::new();
    let root = EvaluationContext::<()>::new_root();
    let mut modal = root.mount(ElementKey::from("modal"), 7u8);
    let (_, scoped) = modal.start(&mut runtime, &mut tree).expect("started");
    assert_eq!(modal.drop(), Some(UiCommand::Remove { path: modal.path, owner: Some(scoped.owner) }));
    assert_eq!(modal.drop(), None);

    // A value dropped before its first poll started nothing and removes nothing.
    let mut unstarted = root.mount(ElementKey::from("other"), 8u8);
    assert_eq!(unstarted.drop(), None);
}

#[test]
fn a_started_component_is_a_task_that_ends_with_the_element_it_was_declared_under() {
    let mut tree: RetainedTree<&str> = RetainedTree::new();
    let mut runtime: Runtime<(u64, ScopeId), ()> = Runtime::new();
    let root = EvaluationContext::<()>::new_root();
    let frame = slot_path(ROOT_PATH, ElementKey::from("frame"));
    tree.add_element(None, ROOT_PATH, frame, element);
    let ctx = root.declared(ElementKey::from("frame"));
    let task = ctx.start_component(ElementKey::from("ticker"), &mut runtime, &mut tree, |scoped| (scoped.path, scoped.owner));
    let path = slot_path(frame, ElementKey::from("ticker"));
    let started = runtime.task(task).expect("started");
    assert_eq!(started.future, Some((path, ScopeId(0))));
    assert_eq!(started.path, path);
    assert!(tree.path_is_under(path, frame));

    let (ended, _) = apply(UiCommand::Remove { path: frame, owner: None }, &mut runtime, &mut tree);
    assert_eq!(ended.len(), 1);
    assert!(runtime.task(task).is_none());
}
