//! The start of the DRM backend: the steps in their order, and what the failure of each
//! ends with.

use crate::backend::Error;
use crate::state;
use vstd::prelude::*;

verus! {

/// A step of the start. The steps run in the order in which they stand here.
#[derive(Clone, Copy, Debug, PartialEq, Eq, Structural)]
pub enum StartupStep {
    /// Create the event loop.
    EventLoop,
    /// Create the Wayland display.
    Display,
    /// Create the socket that clients connect to.
    Socket,
    /// Put the display into the event loop.
    DisplaySource,
    /// Open the session.
    Session,
    /// Ask for the path of the GPU behind the seat.
    PrimaryGpuPath,
    /// Resolve the render node of that GPU.
    PrimaryGpuNode,
    /// Create the GPU manager.
    GpuManager,
    /// Build the compositor state.
    State,
    /// Start listening for hot-plug notifications.
    Udev,
    /// Give the seat to the input library.
    LibinputSeat,
    /// Put the input devices into the event loop.
    InputSource,
    /// Put the session into the event loop.
    SessionSource,
    /// Put the hot-plug notifications into the event loop.
    UdevSource,
}

/// How a step ended.
#[derive(Clone, Copy, Debug, PartialEq, Eq, Structural)]
pub enum StepOutcome {
    /// It did what it was for.
    Done,
    /// It failed.
    Failed,
    /// It ran and found nothing: the seat has no GPU.
    Nothing,
    /// The compositor state could not be built, for this reason.
    NoState(state::Error),
}

/// The step after this one, if there is one.
pub open spec fn step_after(step: StartupStep) -> Option<StartupStep> {
    match step {
        StartupStep::EventLoop => Some(StartupStep::Display),
        StartupStep::Display => Some(StartupStep::Socket),
        StartupStep::Socket => Some(StartupStep::DisplaySource),
        StartupStep::DisplaySource => Some(StartupStep::Session),
        StartupStep::Session => Some(StartupStep::PrimaryGpuPath),
        StartupStep::PrimaryGpuPath => Some(StartupStep::PrimaryGpuNode),
        StartupStep::PrimaryGpuNode => Some(StartupStep::GpuManager),
        StartupStep::GpuManager => Some(StartupStep::State),
        StartupStep::State => Some(StartupStep::Udev),
        StartupStep::Udev => Some(StartupStep::LibinputSeat),
        StartupStep::LibinputSeat => Some(StartupStep::InputSource),
        StartupStep::InputSource => Some(StartupStep::SessionSource),
        StartupStep::SessionSource => Some(StartupStep::UdevSource),
        StartupStep::UdevSource => None,
    }
}

/// What the start ends with when this step does not do what it is for.
pub open spec fn failure_of(step: StartupStep, outcome: StepOutcome) -> Error {
    match step {
        StartupStep::EventLoop => Error::EventLoopCreateFailure,
        StartupStep::Display => Error::DisplayCreateFailure,
        StartupStep::Socket => Error::SocketCreateFailure,
        StartupStep::DisplaySource => Error::SourceInsertFailure,
        StartupStep::Session => Error::SessionInitFailure,
        StartupStep::PrimaryGpuPath => match outcome {
            StepOutcome::Nothing => Error::NoGPUFound,
            _ => Error::PrimaryGPUGetFailure,
        },
        StartupStep::PrimaryGpuNode => Error::NoGPUFound,
        StartupStep::GpuManager => Error::GpuManagerCreateFailure,
        StartupStep::State => match outcome {
            StepOutcome::NoState(reason) => Error::StateCreateFailure(reason),
            _ => Error::StateCreateFailure(state::Error::KeyboardAddFailure),
        },
        StartupStep::Udev => Error::UdevInitFailure,
        StartupStep::LibinputSeat => Error::LibinputAssignSeatFailure,
        StartupStep::InputSource => Error::SourceInsertFailure,
        StartupStep::SessionSource => Error::SourceInsertFailure,
        StartupStep::UdevSource => Error::SourceInsertFailure,
    }
}

/// The first step of the start.
pub fn first_step() -> (step: StartupStep)
    ensures
        step == StartupStep::EventLoop,
{
    StartupStep::EventLoop
}

/// Goes on with the start after a step has ended. A step that did what it was for is
/// followed by the next, or by nothing after the last. Any other end of a step ends the
/// start with that step's failure: no part of the backend runs without the rest.
pub fn advance(step: StartupStep, outcome: StepOutcome) -> (next: Result<
    Option<StartupStep>,
    Error,
>)
    ensures
        next == if outcome == StepOutcome::Done {
            Ok::<Option<StartupStep>, Error>(step_after(step))
        } else {
            Err::<Option<StartupStep>, Error>(failure_of(step, outcome))
        },
{
    match outcome {
        StepOutcome::Done => {},
        _ => {
            return Err(failure(step, outcome));
        },
    }
    let next = match step {
        StartupStep::EventLoop => Some(StartupStep::Display),
        StartupStep::Display => Some(StartupStep::Socket),
        StartupStep::Socket => Some(StartupStep::DisplaySource),
        StartupStep::DisplaySource => Some(StartupStep::Session),
        StartupStep::Session => Some(StartupStep::PrimaryGpuPath),
        StartupStep::PrimaryGpuPath => Some(StartupStep::PrimaryGpuNode),
        StartupStep::PrimaryGpuNode => Some(StartupStep::GpuManager),
        StartupStep::GpuManager => Some(StartupStep::State),
        StartupStep::State => Some(StartupStep::Udev),
        StartupStep::Udev => Some(StartupStep::LibinputSeat),
        StartupStep::LibinputSeat => Some(StartupStep::InputSource),
        StartupStep::InputSource => Some(StartupStep::SessionSource),
        StartupStep::SessionSource => Some(StartupStep::UdevSource),
        StartupStep::UdevSource => None,
    };
    Ok(next)
}

/// What the start ends with when this step does not do what it is for.
pub fn failure(step: StartupStep, outcome: StepOutcome) -> (error: Error)
    ensures
        error == failure_of(step, outcome),
{
    match step {
        StartupStep::EventLoop => Error::EventLoopCreateFailure,
        StartupStep::Display => Error::DisplayCreateFailure,
        StartupStep::Socket => Error::SocketCreateFailure,
        StartupStep::DisplaySource => Error::SourceInsertFailure,
        StartupStep::Session => Error::SessionInitFailure,
        StartupStep::PrimaryGpuPath => match outcome {
            StepOutcome::Nothing => Error::NoGPUFound,
            _ => Error::PrimaryGPUGetFailure,
        },
        StartupStep::PrimaryGpuNode => Error::NoGPUFound,
        StartupStep::GpuManager => Error::GpuManagerCreateFailure,
        StartupStep::State => match outcome {
            StepOutcome::NoState(reason) => Error::StateCreateFailure(reason),
            _ => Error::StateCreateFailure(state::Error::KeyboardAddFailure),
        },
        StartupStep::Udev => Error::UdevInitFailure,
        StartupStep::LibinputSeat => Error::LibinputAssignSeatFailure,
        StartupStep::InputSource => Error::SourceInsertFailure,
        StartupStep::SessionSource => Error::SourceInsertFailure,
        StartupStep::UdevSource => Error::SourceInsertFailure,
    }
}

} // verus!
