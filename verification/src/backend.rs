//! The display backend and the errors it can end with.

pub mod drm;
pub mod winit;

use crate::cursor;
use crate::state;
use vstd::prelude::*;
use vstd::string::StrSliceExecFns;
use vstd::string::StringExecFns;

verus! {

/// Everything the display backend can fail with.
///
/// Start-up failures end the program. Failures of one device or one connector are
/// reported and leave the others running.
#[derive(Clone, Copy, Debug, PartialEq, Eq, Structural)]
pub enum Error {
    /// The pointer image could not be loaded.
    CursorLoadError(cursor::Error),
    /// The session refused to open the device node.
    DeviceOpenFailure,
    /// The driver refused the mode-setting handle.
    ModesetInitFailure,
    /// The driver refused the buffer allocator.
    AllocatorInitFailure,
    /// No free buffer: every buffer of the surface is in flight.
    BufferAcquireFailure,
    /// The Wayland display could not be created.
    DisplayCreateFailure,
    /// The driver refused a mode-setting surface for the connector and CRTC.
    DrmSurfaceCreateFailure,
    /// The event loop could not be created.
    EventLoopCreateFailure,
    /// The buffer queue of a surface could not be set up.
    GbmSurfaceCreateFailure,
    /// The registry of render nodes could not be created.
    GpuManagerCreateFailure,
    /// The seat has no GPU, or its GPU has no usable node.
    NoGPUFound,
    /// The GPU behind the seat could not be asked for.
    PrimaryGPUGetFailure,
    /// The session could not be opened.
    SessionInitFailure,
    /// The socket for the clients could not be created.
    SocketCreateFailure,
    /// An event source was refused by the event loop.
    SourceInsertFailure,
    /// The compositor state could not be built.
    StateCreateFailure(state::Error),
    /// The input library refused the seat.
    LibinputAssignSeatFailure,
    /// The hot-plug notifications could not be listened to.
    UdevInitFailure,
}

impl Error {
    /// The text shown for this error.
    pub open spec fn message_spec(self) -> Seq<char> {
        match self {
            Error::CursorLoadError(inner) => inner.message_spec(),
            Error::DeviceOpenFailure => "Failed to open device"@,
            Error::ModesetInitFailure => "Failed to initialize mode setting"@,
            Error::AllocatorInitFailure => "Failed to initialize buffer allocator"@,
            Error::BufferAcquireFailure => "Failed to acquire a free buffer"@,
            Error::DisplayCreateFailure => "Failed to create Wayland display"@,
            Error::DrmSurfaceCreateFailure => "Failed to create drm surface"@,
            Error::EventLoopCreateFailure => "Failed to create event loop"@,
            Error::GbmSurfaceCreateFailure => "Failed to create gbm surface"@,
            Error::GpuManagerCreateFailure => "Failed to create GPU manager"@,
            Error::NoGPUFound => "No GPU found"@,
            Error::PrimaryGPUGetFailure => "Failed to get the path of the primary GPU"@,
            Error::SessionInitFailure => "Failed to initialize session"@,
            Error::SocketCreateFailure => "Failed to create Wayland socket"@,
            Error::SourceInsertFailure => "Failed to insert source into event loop"@,
            Error::StateCreateFailure(inner) => inner.message_spec(),
            Error::LibinputAssignSeatFailure => "Failed to assign seat to the libinput context"@,
            Error::UdevInitFailure => "Failed to initialize Udev backend"@,
        }
    }

    /// The text shown for this error.
    pub fn message(&self) -> (text: String)
        ensures
            text@ == self.message_spec(),
    {
        match self {
            Error::CursorLoadError(inner) => inner.message(),
            Error::DeviceOpenFailure => String::from_str("Failed to open device"),
            Error::ModesetInitFailure => String::from_str("Failed to initialize mode setting"),
            Error::AllocatorInitFailure => String::from_str("Failed to initialize buffer allocator"),
            Error::BufferAcquireFailure => String::from_str("Failed to acquire a free buffer"),
            Error::DisplayCreateFailure => String::from_str("Failed to create Wayland display"),
            Error::DrmSurfaceCreateFailure => String::from_str("Failed to create drm surface"),
            Error::EventLoopCreateFailure => String::from_str("Failed to create event loop"),
            Error::GbmSurfaceCreateFailure => String::from_str("Failed to create gbm surface"),
            Error::GpuManagerCreateFailure => String::from_str("Failed to create GPU manager"),
            Error::NoGPUFound => String::from_str("No GPU found"),
            Error::PrimaryGPUGetFailure => String::from_str(
                "Failed to get the path of the primary GPU",
            ),
            Error::SessionInitFailure => String::from_str("Failed to initialize session"),
            Error::SocketCreateFailure => String::from_str("Failed to create Wayland socket"),
            Error::SourceInsertFailure => String::from_str(
                "Failed to insert source into event loop",
            ),
            Error::StateCreateFailure(inner) => inner.message(),
            Error::LibinputAssignSeatFailure => String::from_str(
                "Failed to assign seat to the libinput context",
            ),
            Error::UdevInitFailure => String::from_str("Failed to initialize Udev backend"),
        }
    }
}

/// The backend to run.
#[derive(Clone, Copy, Debug, PartialEq, Eq, Structural)]
pub enum BackendKind {
    /// In a window of another Wayland compositor.
    Winit,
    /// On the display hardware itself.
    Drm,
}

/// The backend for an environment: the windowed one where the environment names a
/// Wayland display, the hardware one where it names none or an empty one.
pub open spec fn backend_for(wayland_display: Option<Seq<char>>) -> BackendKind {
    match wayland_display {
        Some(name) => if name.len() > 0 {
            BackendKind::Winit
        } else {
            BackendKind::Drm
        },
        None => BackendKind::Drm,
    }
}

/// Picks the backend by the name of the Wayland display that the environment gives,
/// `None` where it gives none.
pub fn choose_backend(wayland_display: Option<&str>) -> (kind: BackendKind)
    ensures
        kind == backend_for(
            match wayland_display {
                Some(name) => Some(name@),
                None => None,
            },
        ),
{
    match wayland_display {
        Some(name) => {
            if name.unicode_len() > 0 {
                BackendKind::Winit
            } else {
                BackendKind::Drm
            }
        },
        None => BackendKind::Drm,
    }
}

} // verus!
