use byte_engine::context::ElementKey;
use byte_engine::evaluation_context::{EvaluationContext, ScopeId};
use byte_engine::futures::{ContainerContext, EventFuture, RenderFuture};
use byte_engine::primitive::Events;
use byte_engine::properties::declare;
use byte_engine::retained_tree::RetainedTree;
use byte_engine::runtime::{Runtime, WaitKey};

#[test]
fn nested_retained_components_attach_under_declaring_element_with_stable_ids() {
    let mut tree: RetainedTree<&str> = RetainedTree::new();
    let root_ctx = EvaluationContext::<()>::new_root();
    let (root, created) = declare(&root_ctx, ElementKey::from("root"), &mut tree, |_| "root");
    assert_eq!(created, Some(0));
    let (child, created) = declare(&root, ElementKey::from("child"), &mut tree, |_| "child");
    assert_eq!(created, Some(1));
    assert_eq!(tree.parent_index_of(1), Some(0));
    assert_eq!(child.owner, ScopeId::root());

    // The next frame declares the same slots again: same ids, nothing created.
    tree.begin_frame();
    let (root_again, created) = declare(&root_ctx, ElementKey::from("root"), &mut tree, |_| "other");
    assert_eq!(created, None);
    assert_eq!(root_again.id, root.id);
    let (child_again, created) = declare(&root_again, ElementKey::from("child"), &mut tree, |_| "other");
    assert_eq!(created, None);
    assert_eq!(child_again.id, child.id);
    assert_eq!(tree.elements()[1].element, "child");
}

#[test]
fn contexts_make_waits_for_their_own_element() {
    let ctx = EvaluationContext::<()>::new_root().declared(ElementKey::from("button"));
    assert_eq!(ctx.on(Events::Actuated), EventFuture::new(ctx.id, Events::Actuated));
    assert_eq!(ctx.render(), RenderFuture::new());
    assert_eq!(ctx.on_text_edit().target, ctx.id);
    assert_eq!(ctx.on_key(byte_engine::primitive::Key::Escape).target, ctx.id);
}

#[test]
fn next_tick_is_now_while_a_component_waits_for_frames_and_follows_a_pending_timer_otherwise() {
    let mut runtime: Runtime<&str, (f32, f32)> = Runtime::new();
    assert_eq!(runtime.next_tick(5), None);
    let task = runtime.spawn(ScopeId::root(), 1, "timer");
    let poll = runtime.next_poll();
    runtime.wait_for(task, WaitKey::Timer(90), poll);
    assert_eq!(runtime.next_tick(5), Some(90));
    let mut render = RenderFuture::new();
    assert!(!render.poll(&mut runtime, task, poll));
    assert_eq!(runtime.next_tick(5), Some(5));
}

#[test]
fn a_slot_declares_the_element_its_context_and_key_name() {
    let mut tree: RetainedTree<&str> = RetainedTree::new();
    let root_ctx = EvaluationContext::<()>::new_root();
    let slot = root_ctx.element(ElementKey::from("panel"));
    assert_eq!(slot.key, ElementKey::from("panel"));
    let (panel, created) = slot.declare(&mut tree, |_| "panel");
    assert_eq!(created, Some(0));
    assert_eq!(panel.id, root_ctx.slot_id(ElementKey::from("panel")));
    let (label, created) = panel.element(ElementKey::from("label")).declare(&mut tree, |_| "label");
    assert_eq!(created, Some(1));
    assert_eq!(label.id, panel.slot_id(ElementKey::from("label")));
    assert_eq!(tree.parent_index_of(1), Some(0));
}
