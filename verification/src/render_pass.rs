//! Decisions the UI render pass makes from frame to frame.
use vstd::prelude::*;

verus! {

/// Whether a frame that `exceeded` a limit warns, given whether the warning stands `reported` from earlier frames.
pub open spec fn warns(reported: bool, exceeded: bool) -> bool {
    exceeded && !reported
}

/// Whether the warning stands after the frames `exceeded`, starting from `reported`: it stands exactly while the
/// last frame exceeded the limit.
pub open spec fn reported_after(reported: bool, exceeded: Seq<bool>) -> bool {
    if exceeded.len() == 0 {
        reported
    } else {
        exceeded.last()
    }
}

/// Decides whether to warn that a limit was exceeded: on the first frame that exceeds it, and again only after a
/// frame that stayed within it. `reported` carries that state from frame to frame; the caller logs the warning.
pub fn warn_once(reported: &mut bool, exceeded: bool) -> (warn: bool)
    ensures
        warn == warns(*old(reported), exceeded),
        *final(reported) == exceeded,
{
    let warn = exceeded && !*reported;
    *reported = exceeded;
    warn
}

/// Over a run of frames, a frame after the first warns exactly when it exceeds the limit and the frame before it did
/// not: a limit exceeded frame after frame warns once, and again after a frame within it.
pub proof fn warn_once_warns_once_per_streak(reported: bool, exceeded: Seq<bool>, k: int)
    requires
        1 <= k < exceeded.len(),
    ensures
        warns(reported_after(reported, exceeded.take(k)), exceeded[k]) == (exceeded[k] && !exceeded[k - 1]),
{
    assert(exceeded.take(k).last() == exceeded[k - 1]);
}

/// The `BlurDispatch` enum is one compute dispatch of a backdrop blur.
#[derive(Clone, Copy, Debug, PartialEq, Eq, Structural)]
pub enum BlurDispatch {
    /// Resolves the scene under the UI drawn so far, for the blur's footprint only.
    Resolve,
    /// Filters the full-resolution backdrop along rows.
    FullHorizontal,
    /// Filters the full-resolution backdrop along columns.
    FullVertical,
    /// Downsamples the backdrop to half resolution.
    HalfDownsample,
    /// Filters the half-resolution backdrop along rows.
    HalfHorizontal,
    /// Filters the half-resolution backdrop along columns.
    HalfVertical,
}

/// The dispatches of one backdrop blur, in the order they are recorded: the resolve, then each resolution path the
/// blur uses, full resolution before half.
pub open spec fn blur_dispatch_plan(uses_full_resolution: bool, uses_half_resolution: bool) -> Seq<BlurDispatch> {
    seq![BlurDispatch::Resolve] + (if uses_full_resolution {
        seq![BlurDispatch::FullHorizontal, BlurDispatch::FullVertical]
    } else {
        Seq::<BlurDispatch>::empty()
    }) + (if uses_half_resolution {
        seq![BlurDispatch::HalfDownsample, BlurDispatch::HalfHorizontal, BlurDispatch::HalfVertical]
    } else {
        Seq::<BlurDispatch>::empty()
    })
}

/// Plans the compute dispatches of one backdrop blur. The full-resolution path filters in two passes and the
/// half-resolution path downsamples and filters in three, so a blur that crosses between the two runs both.
pub fn blur_dispatches(uses_full_resolution: bool, uses_half_resolution: bool) -> (r: Vec<BlurDispatch>)
    ensures
        r@ == blur_dispatch_plan(uses_full_resolution, uses_half_resolution),
        r@.len() == 1 + (if uses_full_resolution { 2int } else { 0int }) + (if uses_half_resolution { 3int } else { 0int }),
{
    let mut r: Vec<BlurDispatch> = Vec::new();
    r.push(BlurDispatch::Resolve);
    if uses_full_resolution {
        r.push(BlurDispatch::FullHorizontal);
        r.push(BlurDispatch::FullVertical);
    }
    if uses_half_resolution {
        r.push(BlurDispatch::HalfDownsample);
        r.push(BlurDispatch::HalfHorizontal);
        r.push(BlurDispatch::HalfVertical);
    }
    proof {
        assert(r@ =~= blur_dispatch_plan(uses_full_resolution, uses_half_resolution));
    }
    r
}

} // verus!
