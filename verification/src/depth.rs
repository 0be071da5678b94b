//! Stacking depth of laid out elements.
//!
//! Every placed element gets a depth that orders it against the others when rendering and hit testing. A container
//! chooses its depth relative to its parent, or relative to the highest depth placed so far, which lifts overlays such
//! as modals above everything declared before them.
use vstd::prelude::*;

verus! {

/// The `Depth` enum says where a container sits in the stacking order.
#[derive(Debug, Clone, Copy, PartialEq, Eq, Structural)]
pub enum Depth {
    /// This many levels above the parent.
    Relative(i32),
    /// This many levels above the highest depth placed so far.
    Absolute(i32),
}

impl Depth {
    /// A depth `depth` levels above the parent's.
    pub fn relative(depth: i32) -> (r: Self)
        ensures
            r == Depth::Relative(depth),
    {
        Depth::Relative(depth)
    }

    /// A depth `depth` levels above the highest depth placed so far.
    pub fn absolute(depth: i32) -> (r: Self)
        ensures
            r == Depth::Absolute(depth),
    {
        Depth::Absolute(depth)
    }
}

impl Default for Depth {
    /// One level above the parent.
    fn default() -> (r: Self)
        ensures
            r == Depth::Relative(1),
    {
        Depth::relative(1)
    }
}

impl From<i16> for Depth {
    fn from(value: i16) -> (r: Self) {
        Depth::relative(value as i32)
    }
}

impl vstd::std_specs::convert::FromSpecImpl<i16> for Depth {
    open spec fn obeys_from_spec() -> bool {
        true
    }

    open spec fn from_spec(value: i16) -> Self {
        Depth::Relative(value as i32)
    }
}

impl From<i32> for Depth {
    fn from(value: i32) -> (r: Self) {
        Depth::relative(value)
    }
}

impl vstd::std_specs::convert::FromSpecImpl<i32> for Depth {
    open spec fn obeys_from_spec() -> bool {
        true
    }

    open spec fn from_spec(value: i32) -> Self {
        Depth::Relative(value)
    }
}

/// `value` clamped to the range of `i32`, as `i32::saturating_add` clamps a sum.
pub open spec fn saturate(value: int) -> i32 {
    if value > i32::MAX {
        i32::MAX
    } else if value < i32::MIN {
        i32::MIN
    } else {
        value as i32
    }
}

/// The depth of a child placed under a parent at `parent_depth` while `highest_depth` is the highest depth placed so
/// far. A child that is no container sits one level above its parent.
pub open spec fn child_depth_spec(depth: Option<Depth>, parent_depth: i32, highest_depth: i32) -> i32 {
    match depth {
        Some(Depth::Relative(value)) => saturate(parent_depth + value),
        Some(Depth::Absolute(value)) => saturate(highest_depth + value),
        None => saturate(parent_depth + 1),
    }
}

/// The larger of two depths.
pub open spec fn highest(a: i32, b: i32) -> i32 {
    if a < b {
        b
    } else {
        a
    }
}

/// Adds two depths, clamping at the bounds of `i32` instead of overflowing.
fn saturating_add(a: i32, b: i32) -> (r: i32)
    ensures
        r == saturate(a + b),
{
    let sum: i64 = a as i64 + b as i64;
    if sum > i32::MAX as i64 {
        i32::MAX
    } else if sum < i32::MIN as i64 {
        i32::MIN
    } else {
        sum as i32
    }
}

/// Resolves the depth of the next child placed and raises `highest_depth` to it when it lies above.
///
/// `depth` is the child's own depth setting; `None` stands for an element that is no container.
pub fn child_depth(depth: Option<Depth>, parent_depth: i32, highest_depth: &mut i32) -> (r: i32)
    ensures
        r == child_depth_spec(depth, parent_depth, *old(highest_depth)),
        *final(highest_depth) == highest(*old(highest_depth), r),
{
    let resolved = match depth {
        Some(Depth::Relative(value)) => saturating_add(parent_depth, value),
        Some(Depth::Absolute(value)) => saturating_add(*highest_depth, value),
        None => saturating_add(parent_depth, 1),
    };
    if *highest_depth < resolved {
        *highest_depth = resolved;
    }
    resolved
}

/// The stacking coordinate of a placed element: its depth, with negative depths at the bottom level.
pub fn stacking_level(depth: i32) -> (r: u32)
    ensures
        r == if depth < 0 {
            0
        } else {
            depth
        },
{
    if depth < 0 {
        0
    } else {
        depth as u32
    }
}

/// Placing any child never lowers the highest depth, and leaves it at or above the child's depth.
pub proof fn highest_depth_never_decreases(depth: Option<Depth>, parent_depth: i32, highest_depth: i32)
    ensures
        highest(highest_depth, child_depth_spec(depth, parent_depth, highest_depth)) >= highest_depth,
        highest(highest_depth, child_depth_spec(depth, parent_depth, highest_depth)) >= child_depth_spec(
            depth,
            parent_depth,
            highest_depth,
        ),
{
}

/// A container with a positive absolute depth lands above every depth placed before it, unless the highest depth
/// already sits at the top of the range.
pub proof fn absolute_depth_lifts_above_everything_placed(value: i32, parent_depth: i32, highest_depth: i32)
    requires
        value > 0,
        highest_depth < i32::MAX,
    ensures
        child_depth_spec(Some(Depth::Absolute(value)), parent_depth, highest_depth) > highest_depth,
{
}

} // verus!
