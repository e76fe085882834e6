//! Plain settings of a camera.

use vstd::prelude::*;

verus! {

/// Where the origin of window coordinates lies.
#[derive(Debug, Clone, Copy, PartialEq, Eq, Structural)]
pub enum WindowOrigin {
    Center,
    BottomLeft,
}

/// How an orthographic view follows the window size.
#[derive(Debug, Clone, Copy, PartialEq, Eq, Structural)]
pub enum ScalingMode {
    /// Left, right, top and bottom are given; the image stretches with the
    /// window.
    Manual,
    /// One world unit is one pixel.
    WindowSize,
    /// The vertical extent stays; the horizontal one follows the aspect ratio.
    FixedVertical,
    /// The horizontal extent stays; the vertical one follows the aspect ratio.
    FixedHorizontal,
}

} // verus!
