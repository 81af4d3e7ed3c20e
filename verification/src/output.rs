//! The logical description of a monitor.

use vstd::prelude::*;
use vstd::string::StringExecFns;

verus! {

/// A mode of an output: its size in pixels and its refresh rate in millihertz.
#[derive(Clone, Copy, Debug, PartialEq, Eq, Structural)]
pub struct Mode {
    pub width: i32,
    pub height: i32,
    pub refresh: i32,
}

/// How the picture is turned on the monitor.
#[derive(Clone, Copy, Debug, PartialEq, Eq, Structural)]
pub enum Transform {
    Normal,
    Flipped180,
}

/// Which output it is: the device that drives it and the CRTC on that device.
#[derive(Clone, Copy, Debug, PartialEq, Eq, Structural)]
pub struct OutputId {
    pub device: u64,
    pub crtc: u32,
}

/// A point of the layout.
#[derive(Clone, Copy, Debug, PartialEq, Eq, Structural)]
pub struct Point {
    pub x: i32,
    pub y: i32,
}

/// Width and height of a screen in millimetres.
#[derive(Clone, Copy, Debug, PartialEq, Eq, Structural)]
pub struct PhysicalSize {
    pub width: u32,
    pub height: u32,
}

/// A monitor as the compositor sees it.
#[derive(Clone, Debug, PartialEq, Eq)]
pub struct Output {
    pub id: OutputId,
    /// Interface and number of the connector, as in `HDMI-A-1`.
    pub name: String,
    /// The size of the screen, zero where unknown.
    pub physical_size: PhysicalSize,
    pub make: String,
    pub model: String,
    pub current_mode: Mode,
    pub preferred_mode: Mode,
    pub transform: Transform,
    /// Integer scale factor.
    pub scale: i32,
}

/// The number of units that `pixels` pixels are at an integer scale: the quotient,
/// rounded up.
pub open spec fn scaled(pixels: int, scale: int) -> int
    recommends
        pixels >= 0,
        scale >= 1,
{
    (pixels + scale - 1) / scale
}

/// The make and the model shown where the monitor gives none.
pub open spec fn unknown() -> Seq<char> {
    "Unknown"@
}

impl Output {
    /// The mode has no negative side and the scale is at least one.
    pub open spec fn wf(&self) -> bool {
        &&& self.current_mode.width >= 0
        &&& self.current_mode.height >= 0
        &&& self.scale >= 1
    }

    /// Width and height of the region that the output takes in the layout: the size of
    /// its current mode at its scale. Neither transform swaps the sides.
    pub open spec fn logical_size(&self) -> (int, int) {
        (
            scaled(self.current_mode.width as int, self.scale as int),
            scaled(self.current_mode.height as int, self.scale as int),
        )
    }

    /// Width and height of the region that the output takes in the layout.
    pub fn geometry_size(&self) -> (size: (i32, i32))
        requires
            self.wf(),
        ensures
            size.0 == self.logical_size().0,
            size.1 == self.logical_size().1,
            0 <= size.0 <= self.current_mode.width,
            0 <= size.1 <= self.current_mode.height,
    {
        (divide_up(self.current_mode.width, self.scale), divide_up(
            self.current_mode.height,
            self.scale,
        ))
    }
}

/// Divides and rounds up.
pub fn divide_up(pixels: i32, scale: i32) -> (units: i32)
    requires
        pixels >= 0,
        scale >= 1,
    ensures
        units == scaled(pixels as int, scale as int),
        0 <= units <= pixels,
{
    let whole: i32 = pixels / scale;
    let rest: i32 = pixels % scale;
    proof {
        let p = pixels as int;
        let s = scale as int;
        assert(p == s * (p / s) + p % s && 0 <= p % s < s) by (nonlinear_arith)
            requires
                s >= 1,
        ;
        assert(0 <= p / s <= p) by (nonlinear_arith)
            requires
                p >= 0,
                s >= 1,
        ;
        if p % s == 0 {
            assert((p + s - 1) / s == p / s) by (nonlinear_arith)
                requires
                    s >= 1,
                    p >= 0,
                    p == s * (p / s),
            ;
        } else {
            assert((p + s - 1) / s == p / s + 1) by (nonlinear_arith)
                requires
                    s >= 1,
                    p >= 0,
                    p == s * (p / s) + p % s,
                    0 < p % s < s,
            ;
            assert(p / s + 1 <= p) by (nonlinear_arith)
                requires
                    s >= 1,
                    p >= 0,
                    p == s * (p / s) + p % s,
                    0 < p % s < s,
            ;
        }
    }
    if rest == 0 {
        whole
    } else {
        whole + 1
    }
}

/// The text shown where the monitor gives no make or model.
pub fn unknown_text() -> (text: String)
    ensures
        text@ == unknown(),
{
    String::from_str("Unknown")
}

} // verus!
