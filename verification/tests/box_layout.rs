use byte_engine::layout_box::{evaluate_hit_test, evaluate_layout, Direction, Flow, LayoutNode, Scalings};

fn fraction(parent: u32, value: f32) -> u32 {
    (parent as f32 * value) as u32
}

#[test]
fn test_box() {
    let b: LayoutNode<f32> = LayoutNode::fixed(1920, 1080);
    assert_eq!(b.scaling_x, Scalings::Fixed { value: 1920 });
    assert_eq!(b.scaling_y, Scalings::Fixed { value: 1080 });
    assert_eq!(b.direction_x, Direction::Positive);
    assert_eq!(b.direction_y, Direction::Negative);
    assert_eq!(b.flow, Flow::Horizontal);
    assert_eq!(b.children.len(), 0);
}

#[test]
fn test_layout() {
    let mut root = LayoutNode::fixed(1920, 1080);
    let mut child = LayoutNode::fixed(100, 100);
    child.scaling_x = Scalings::Fractional { value: 0.5 };
    child.scaling_y = Scalings::Fill;
    root.add_child(child);

    let layout = evaluate_layout(&root, &fraction);
    assert_eq!(layout.width(), 1920);
    assert_eq!(layout.height(), 1080);
    assert_eq!(layout.index, None);
    assert_eq!(layout.children.len(), 1);

    assert_eq!(layout.children[0].width(), 960);
    assert_eq!(layout.children[0].height(), 1080);
    assert_eq!(layout.children[0].index, Some(0));
}

#[test]
fn test_layout_row_children() {
    let mut root = LayoutNode::fixed(1920, 1080);
    let mut child_a = LayoutNode::fixed(100, 100);
    child_a.scaling_x = Scalings::Fractional { value: 0.5 };
    child_a.scaling_y = Scalings::Fill;
    root.add_child(child_a);

    let mut child_b = LayoutNode::fixed(100, 100);
    child_b.scaling_x = Scalings::Fractional { value: 0.5 };
    child_b.scaling_y = Scalings::Fill;
    root.add_child(child_b);

    let layout = evaluate_layout(&root, &fraction);
    assert_eq!(layout.width(), 1920);
    assert_eq!(layout.height(), 1080);
    assert_eq!(layout.children.len(), 2);

    assert_eq!(layout.children[0].x, -480);
    assert_eq!(layout.children[0].y, 0);
    assert_eq!(layout.children[0].width(), 960);
    assert_eq!(layout.children[0].height(), 1080);
    assert_eq!(layout.children[0].index, Some(0));

    assert_eq!(layout.children[1].x, 480);
    assert_eq!(layout.children[1].y, 0);
    assert_eq!(layout.children[1].width(), 960);
    assert_eq!(layout.children[1].height(), 1080);
    assert_eq!(layout.children[1].index, Some(1));
}

#[test]
fn test_layout_column_children() {
    let mut root = LayoutNode::fixed(1000, 1000);
    let mut child_a = LayoutNode::fixed(100, 100);
    child_a.scaling_x = Scalings::Fill;
    child_a.scaling_y = Scalings::Fractional { value: 0.5 };
    root.add_child(child_a);

    let mut child_b = LayoutNode::fixed(100, 100);
    child_b.scaling_x = Scalings::Fill;
    child_b.scaling_y = Scalings::Fractional { value: 0.5 };
    root.add_child(child_b);

    let layout = evaluate_layout(&root, &fraction);
    assert_eq!(layout.width(), 1000);
    assert_eq!(layout.height(), 1000);
    assert_eq!(layout.children.len(), 2);

    assert_eq!(layout.children[0].x, 0);
    assert_eq!(layout.children[0].y, 250);
    assert_eq!(layout.children[0].width(), 1000);
    assert_eq!(layout.children[0].height(), 500);
    assert_eq!(layout.children[0].index, Some(0));

    assert_eq!(layout.children[1].x, 0);
    assert_eq!(layout.children[1].y, -250);
    assert_eq!(layout.children[1].width(), 1000);
    assert_eq!(layout.children[1].height(), 500);
    assert_eq!(layout.children[1].index, Some(1));
}

#[test]
fn nested_boxes_fill_their_parent_and_fit_boxes_take_nothing() {
    let mut root: LayoutNode<f32> = LayoutNode::fixed(200, 100);
    let mut panel = LayoutNode::new();
    panel.scaling_x = Scalings::Fixed { value: 80 };
    let mut inner = LayoutNode::new();
    inner.scaling_y = Scalings::Fit;
    panel.add_child(inner);
    root.add_child(panel);

    let layout = evaluate_layout(&root, &fraction);
    let panel = &layout.children[0];
    // The panel sits at the root's left edge, filling its height; the inner box fills the panel's width only.
    assert_eq!((panel.x, panel.y, panel.width(), panel.height()), (-60, 0, 80, 100));
    let inner = &panel.children[0];
    assert_eq!((inner.width(), inner.height(), inner.index), (80, 0, Some(0)));
    // The laid-out tree is what the hit test searches.
    assert_eq!(evaluate_hit_test(&layout, -60, 10).expect("hit").index, Some(0));
}
