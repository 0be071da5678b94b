use byte_engine::render_pass::{blur_dispatches, BlurDispatch};

fn filter_dispatches(uses_full_resolution: bool, uses_half_resolution: bool) -> usize {
    blur_dispatches(uses_full_resolution, uses_half_resolution)
        .iter()
        .filter(|dispatch| **dispatch != BlurDispatch::Resolve)
        .count()
}

#[test]
fn backdrop_blur_resolution_crossover_selects_two_three_or_five_dispatches() {
    // Below the crossover only the full-resolution path runs, inside it both do, above it only the half path.
    assert_eq!(filter_dispatches(true, false), 2);
    assert_eq!(filter_dispatches(true, true), 5);
    assert_eq!(filter_dispatches(false, true), 3);
}

#[test]
fn blur_dispatches_resolve_first_and_run_full_resolution_before_half() {
    assert_eq!(blur_dispatches(true, false), vec![BlurDispatch::Resolve, BlurDispatch::FullHorizontal, BlurDispatch::FullVertical]);
    assert_eq!(blur_dispatches(false, true), vec![BlurDispatch::Resolve, BlurDispatch::HalfDownsample, BlurDispatch::HalfHorizontal, BlurDispatch::HalfVertical]);
    assert_eq!(
        blur_dispatches(true, true),
        vec![BlurDispatch::Resolve, BlurDispatch::FullHorizontal, BlurDispatch::FullVertical, BlurDispatch::HalfDownsample, BlurDispatch::HalfHorizontal, BlurDispatch::HalfVertical]
    );
    assert_eq!(blur_dispatches(false, false), vec![BlurDispatch::Resolve]);
}
