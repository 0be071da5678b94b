use byte_engine::depth::{child_depth, stacking_level, Depth};

#[test]
fn layout_relative_depth_offsets_from_parent_depth() {
    let mut highest = 0;
    assert_eq!(child_depth(Some(Depth::relative(2)), 0, &mut highest), 2);
    assert_eq!(highest, 2);
    assert_eq!(child_depth(Some(Depth::default()), 2, &mut highest), 3);
    assert_eq!(child_depth(None, 3, &mut highest), 4);
    assert_eq!(highest, 4);
}

#[test]
fn layout_absolute_depth_offsets_from_current_highest_depth() {
    let mut highest = 0;
    assert_eq!(child_depth(Some(Depth::relative(3)), 0, &mut highest), 3);
    assert_eq!(child_depth(Some(Depth::absolute(1)), 0, &mut highest), 4);
    assert_eq!(highest, 4);
    // A second absolute sibling stacks above the first.
    assert_eq!(child_depth(Some(Depth::absolute(1)), 0, &mut highest), 5);
}

#[test]
fn depths_saturate_instead_of_overflowing() {
    let mut highest = i32::MAX;
    assert_eq!(child_depth(Some(Depth::absolute(5)), 0, &mut highest), i32::MAX);
    let mut low = 0;
    assert_eq!(child_depth(Some(Depth::relative(-5)), i32::MIN, &mut low), i32::MIN);
    assert_eq!(low, 0);
}

#[test]
fn depth_conversions_are_relative() {
    assert_eq!(Depth::from(3i32), Depth::Relative(3));
    assert_eq!(Depth::from(-2i16), Depth::Relative(-2));
    assert_eq!(Depth::default(), Depth::Relative(1));
}

#[test]
fn negative_depths_stack_at_the_bottom_level() {
    assert_eq!(stacking_level(-4), 0);
    assert_eq!(stacking_level(0), 0);
    assert_eq!(stacking_level(7), 7);
}
