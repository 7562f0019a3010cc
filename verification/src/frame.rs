//! What the desktop application does with a frame's input before rendering
//! it, and after: when it quits, when it writes out profiling data, and when
//! it resizes the render target.

use vstd::prelude::*;
use crate::input::{has_key_input, has_logical_input, ElementState, WindowInputs};

verus! {

/// The logical key that quits the application when released.
pub open spec fn escape_key() -> Seq<char> {
    "Escape"@
}

/// What the application does with a frame.
#[derive(Debug, Clone, Copy, PartialEq, Eq)]
pub enum FramePlan {
    /// Stop the application.
    Exit,
    /// Go on: write out the profiling data if asked to, resize the render
    /// target if the window was resized, then update and render.
    Render { dump_profile: bool, resize: Option<(u32, u32)> },
}

/// Decides what to do with a frame: releasing Escape or closing the window
/// quits; otherwise pressing the profiling key asks for the profiling data,
/// and a resize of the window resizes the render target.
pub fn plan_frame(inputs: &WindowInputs, close_requested: bool, profile_key: u32) -> (r: FramePlan)
    ensures
        r == if has_logical_input(inputs.keyboard.inputs@, ElementState::Released, escape_key())
            || close_requested {
            FramePlan::Exit
        } else {
            FramePlan::Render {
                dump_profile: has_key_input(
                    inputs.keyboard.inputs@,
                    ElementState::Pressed,
                    profile_key,
                ),
                resize: inputs.new_size,
            }
        },
{
    let escape = "Escape".to_string();
    proof {
        assert(escape@ == escape_key());
    }
    if inputs.keyboard.just_released_logical(&escape) || close_requested {
        return FramePlan::Exit;
    }
    FramePlan::Render {
        dump_profile: inputs.keyboard.just_pressed_physical(profile_key),
        resize: inputs.new_size,
    }
}

/// How presenting a frame went.
#[derive(Debug, Clone, Copy, PartialEq, Eq, Structural)]
pub enum RenderOutcome {
    /// There was nothing to render to.
    NoRenderer,
    /// The frame was presented.
    Presented,
    /// The surface was lost or outdated; it is recreated for the next frame.
    SurfaceLost,
    /// The GPU ran out of memory.
    OutOfMemory,
    /// Another surface error, which is only reported.
    OtherError,
}

/// After rendering, the application stops only when the GPU ran out of memory.
pub fn exits_after(outcome: RenderOutcome) -> (b: bool)
    ensures
        b == (outcome == RenderOutcome::OutOfMemory),
{
    match outcome {
        RenderOutcome::OutOfMemory => true,
        _ => false,
    }
}

} // verus!
