//! The windowed backend: one output, as large as the window.

use crate::input::Action;
use crate::output::{Mode, Output, OutputId, PhysicalSize, Transform};
use vstd::prelude::*;
use vstd::string::StringExecFns;

verus! {

/// The refresh rate of the window's output in millihertz: sixty frames a second.
pub const REFRESH_RATE: i32 = 60_000;

/// The mode of the window's output at a size of the window.
pub open spec fn window_mode(width: i32, height: i32) -> Mode {
    Mode { width, height, refresh: REFRESH_RATE }
}

/// The output of the window is this one: it stands for no device, has no physical size,
/// shows the window at its size, is turned by half a turn, and is not scaled.
pub open spec fn is_window_output(output: Output, width: i32, height: i32) -> bool {
    &&& output.id == (OutputId { device: 0, crtc: 0 })
    &&& output.name@ == "alioth"@
    &&& output.physical_size == (PhysicalSize { width: 0, height: 0 })
    &&& output.make@ == "alioth"@
    &&& output.model@ == "Alioth Winit Output"@
    &&& output.current_mode == window_mode(width, height)
    &&& output.preferred_mode == window_mode(width, height)
    &&& output.transform == Transform::Flipped180
    &&& output.scale == 1
}

/// The output of a window of the given size.
pub fn window_output(width: i32, height: i32) -> (output: Output)
    ensures
        is_window_output(output, width, height),
        width >= 0 && height >= 0 ==> output.wf(),
{
    let mode = Mode { width, height, refresh: REFRESH_RATE };
    Output {
        id: OutputId { device: 0, crtc: 0 },
        name: String::from_str("alioth"),
        physical_size: PhysicalSize { width: 0, height: 0 },
        make: String::from_str("alioth"),
        model: String::from_str("Alioth Winit Output"),
        current_mode: mode,
        preferred_mode: mode,
        transform: Transform::Flipped180,
        scale: 1,
    }
}

/// The window has a new size: the output shows it at that size, and all else stays.
pub fn window_resized(output: &mut Output, width: i32, height: i32)
    ensures
        final(output).current_mode == window_mode(width, height),
        final(output).id == old(output).id,
        final(output).name == old(output).name,
        final(output).physical_size == old(output).physical_size,
        final(output).make == old(output).make,
        final(output).model == old(output).model,
        final(output).preferred_mode == old(output).preferred_mode,
        final(output).transform == old(output).transform,
        final(output).scale == old(output).scale,
{
    output.current_mode = Mode { width, height, refresh: REFRESH_RATE };
}

/// Whether the loop of the window ends: the window was closed, or the keys asked to
/// quit.
pub fn loop_ends(window_closed: bool, action: Action) -> (ends: bool)
    ensures
        ends == (window_closed || action == Action::Quit),
{
    if window_closed {
        return true;
    }
    match action {
        Action::Quit => true,
        _ => false,
    }
}

} // verus!
