use byte_engine::properties::assert_rgba_len;
use byte_engine::render_model::UIRenderModel;
use byte_engine::render_pass::warn_once;

#[test]
fn rgba_data_must_hold_four_bytes_per_pixel() {
    assert!(assert_rgba_len(2, 3, &[0u8; 24]));
    assert!(!assert_rgba_len(2, 3, &[0u8; 23]));
    assert!(assert_rgba_len(0, 3, &[]));
    assert!(!assert_rgba_len(u32::MAX, u32::MAX, &[0u8; 4]));
}

#[test]
fn warns_once_per_streak_of_exceeded_frames() {
    let mut reported = false;
    assert!(warn_once(&mut reported, true));
    assert!(!warn_once(&mut reported, true));
    assert!(!warn_once(&mut reported, false));
    assert!(!reported);
    assert!(warn_once(&mut reported, true));
}

#[test]
fn render_model_starts_empty() {
    let _model = UIRenderModel::new();
}
