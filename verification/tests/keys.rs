use byte_engine::context::{slot_path, ElementKey};
use byte_engine::evaluation_context::{EvaluationContext, ScopeId, UiCommand};
use byte_engine::retained_tree::ROOT_PATH;

#[test]
fn formatted_and_owned_names_key_the_same_element() {
    let node = 7;
    let root = EvaluationContext::<()>::new_root();
    let formatted = root.slot_id(ElementKey::from(format!("node-{node}")));
    let borrowed = root.slot_id(ElementKey::from("node-7"));
    let owned = root.slot_id(ElementKey::from(String::from("node-7")));
    assert_eq!(formatted, owned);
    assert_eq!(borrowed, owned);
}

#[test]
fn owned_names_declare_distinct_elements_and_repeat_by_content() {
    let root = EvaluationContext::<()>::new_root();
    let parent = root.declared(ElementKey::from("root"));
    let mut ids = Vec::new();
    for index in 0..3 {
        ids.push(parent.slot_id(ElementKey::from(format!("node-{index}"))));
    }
    // The same content on a later frame resolves the same retained element.
    ids.push(parent.slot_id(ElementKey::from(String::from("node-1"))));
    assert_eq!(ids.len(), 4);
    assert!(ids[0] != ids[1] && ids[1] != ids[2] && ids[0] != ids[2]);
    assert_eq!(ids[3], ids[1]);
}

#[test]
fn indexed_keys_differ_from_plain_names_and_from_each_other() {
    let plain = ElementKey::from("row");
    let first = ElementKey::from(("row", 0usize));
    let second = ElementKey::from(("row", 1usize));
    assert_ne!(plain, first);
    assert_ne!(first, second);
    assert_eq!(ElementKey::new("row", Some(1)), second);
    assert_eq!(ElementKey::new("row", None), plain);
}

#[test]
fn slot_paths_are_never_the_root_path_and_depend_on_the_parent() {
    let key = ElementKey::from("title");
    let top = slot_path(ROOT_PATH, key);
    let nested = slot_path(top, key);
    assert_ne!(top, ROOT_PATH);
    assert_ne!(nested, top);
    assert_eq!(slot_path(ROOT_PATH, key), top);
}

#[test]
fn contexts_ask_for_structural_changes_of_their_own_element() {
    let root = EvaluationContext::<()>::new_root();
    let mut panel = root.declared(ElementKey::from("panel"));
    let id = panel.id();
    assert_eq!(id, root.slot_id(ElementKey::from("panel")));
    assert_eq!(panel.reparent(42), UiCommand::Reparent { child: id, parent: 42 });
    assert_eq!(panel.adopt(43), UiCommand::Reparent { child: 43, parent: id });
    assert_eq!(panel.request_focus(), UiCommand::Focus { target: id, focused: true });
    assert_eq!(panel.release_focus(), UiCommand::Focus { target: id, focused: false });
    assert_eq!(panel.remove(), UiCommand::Remove { path: id, owner: None });
    let root_scope = EvaluationContext::<()>::new(1, None, ROOT_PATH, ScopeId::root());
    assert_eq!(root_scope.owner, ScopeId::root());
}
