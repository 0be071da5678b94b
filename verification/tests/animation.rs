use std::time::Duration;

use byte_engine::animation::{capped_frame_duration, MAX_STEP_NANOS};

const MAX_STEP: f32 = 1.0 / 30.0;

fn capped(dt: Duration) -> Duration {
    Duration::from_nanos(capped_frame_duration(dt.as_nanos() as u64))
}

#[test]
fn animation_frame_duration_is_capped_for_all_drivers() {
    assert!((capped(Duration::from_secs(1)).as_secs_f32() - MAX_STEP).abs() < f32::EPSILON);
    assert!((capped(Duration::from_millis(16)).as_secs_f32() - 0.016).abs() < f32::EPSILON);
}

#[test]
fn frame_durations_cap_exactly_at_one_thirtieth_of_a_second() {
    assert_eq!(capped_frame_duration(0), 0);
    assert_eq!(capped_frame_duration(MAX_STEP_NANOS - 1), MAX_STEP_NANOS - 1);
    assert_eq!(capped_frame_duration(MAX_STEP_NANOS), MAX_STEP_NANOS);
    assert_eq!(capped_frame_duration(u64::MAX), 33_333_333);
}
