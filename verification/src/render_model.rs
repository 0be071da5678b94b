//! The scene model the UI hands to the renderer.
use vstd::prelude::*;

verus! {

/// The `UIRenderModel` struct is the UI's entry in the scene. It holds nothing yet: the UI prepares its frames
/// through its own render pass.
pub struct UIRenderModel {}

impl UIRenderModel {
    /// Creates the UI's scene entry.
    pub fn new() -> (r: Self)
        ensures
            r == (UIRenderModel {}),
    {
        UIRenderModel {}
    }
}

} // verus!
