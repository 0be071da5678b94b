use byte_engine::layout_box::{evaluate_hit_test, topmost, HitCandidate, LayoutBox};

fn leaf(x: i32, y: i32, width: u32, height: u32, index: Option<usize>) -> LayoutBox {
    LayoutBox { x, y, width, height, children: Vec::new(), index }
}

#[test]
fn test_hit_zero_size() {
    let root = leaf(0, 0, 0, 0, None);

    let hit = evaluate_hit_test(&root, 0, 0);

    assert_eq!(hit.is_some(), false);
}

#[test]
fn test_hit_single_box() {
    let root = leaf(0, 0, 100, 100, None);

    let hit = evaluate_hit_test(&root, 0, 0);

    assert_eq!(hit.is_some(), true);
}

#[test]
fn test_hit_single_box_outside() {
    let root = leaf(0, 0, 100, 100, None);

    let hit = evaluate_hit_test(&root, 101, 101);

    assert_eq!(hit.is_some(), false);
}

#[test]
fn test_hit_single_box_child() {
    let root = LayoutBox {
        x: 0,
        y: 0,
        width: 100,
        height: 100,
        children: vec![leaf(0, 0, 50, 50, Some(0))],
        index: None,
    };

    let hit = evaluate_hit_test(&root, 0, 0).unwrap();

    assert_eq!(hit.index, Some(0));
}

#[test]
fn hit_outside_the_child_lands_on_the_parent() {
    let root = LayoutBox {
        x: 0,
        y: 0,
        width: 100,
        height: 100,
        children: vec![leaf(0, 0, 50, 50, Some(0)), leaf(30, 30, 20, 20, Some(1))],
        index: None,
    };

    // Outside the first child's half extent of 25, inside the second child.
    assert_eq!(evaluate_hit_test(&root, 30, 30).unwrap().index, Some(1));
    // Inside the parent only.
    assert_eq!(evaluate_hit_test(&root, -40, 40).unwrap().index, None);
    // The box edge itself is outside.
    assert!(evaluate_hit_test(&root, 50, 0).is_none());
}

#[test]
fn earlier_children_win_where_siblings_overlap() {
    let root = LayoutBox {
        x: 0,
        y: 0,
        width: 100,
        height: 100,
        children: vec![leaf(0, 0, 40, 40, Some(0)), leaf(0, 0, 40, 40, Some(1))],
        index: None,
    };

    assert_eq!(evaluate_hit_test(&root, 1, 1).unwrap().index, Some(0));
}

#[test]
fn layout_box_reports_its_size() {
    let b = leaf(3, 4, 10, 20, None);
    assert_eq!(b.width(), 10);
    assert_eq!(b.height(), 20);
}

#[test]
fn mouse_click_acceleration_hits_topmost_overlapping_element() {
    let under = HitCandidate { depth: 1, order: 0, id: 10 };
    let over = HitCandidate { depth: 1, order: 1, id: 11 };
    let deeper = HitCandidate { depth: 2, order: 0, id: 12 };
    assert_eq!(topmost(&[under, over], None), Some(11));
    // A deeper element wins over layout order.
    assert_eq!(topmost(&[over, deeper, under], None), Some(12));
    // A held source is skipped so the surface beneath it is found.
    assert_eq!(topmost(&[under, over], Some(11)), Some(10));
    assert_eq!(topmost(&[], None), None);
    assert_eq!(topmost(&[under], Some(10)), None);
}
