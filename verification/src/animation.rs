//! Time steps of UI animations.
//!
//! Durations are whole nanoseconds here.
use vstd::prelude::*;

verus! {

/// The longest step an animation advances in one frame, a thirtieth of a second. A frame that took longer, such as
/// the first after a stall, advances by this much so springs and easings stay stable.
pub const MAX_STEP_NANOS: u64 = 33_333_333;

/// The time an animation advances for a frame that took `dt_nanos`: the frame time, capped at [`MAX_STEP_NANOS`].
pub fn capped_frame_duration(dt_nanos: u64) -> (r: u64)
    ensures
        r == if dt_nanos < MAX_STEP_NANOS {
            dt_nanos
        } else {
            MAX_STEP_NANOS
        },
{
    if dt_nanos < MAX_STEP_NANOS {
        dt_nanos
    } else {
        MAX_STEP_NANOS
    }
}

} // verus!
