use alioth::backend::drm::startup::{advance, failure, first_step, StartupStep, StepOutcome};
use alioth::backend::drm::{select_renderer, RendererChoice};
use alioth::backend::winit::{loop_ends, window_output, window_resized, REFRESH_RATE};
use alioth::backend::{choose_backend, BackendKind, Error};
use alioth::input::Action;
use alioth::output::{Mode, OutputId, PhysicalSize, Transform};
use alioth::{cursor, state};

#[test]
fn errors_have_their_texts() {
    assert_eq!(
        Error::CursorLoadError(cursor::Error::CursorIconLoadFailure).message(),
        "Failed to load cursor icon"
    );
    assert_eq!(Error::DisplayCreateFailure.message(), "Failed to create Wayland display");
    assert_eq!(Error::DrmSurfaceCreateFailure.message(), "Failed to create drm surface");
    assert_eq!(Error::EventLoopCreateFailure.message(), "Failed to create event loop");
    assert_eq!(Error::GbmSurfaceCreateFailure.message(), "Failed to create gbm surface");
    assert_eq!(Error::GpuManagerCreateFailure.message(), "Failed to create GPU manager");
    assert_eq!(Error::NoGPUFound.message(), "No GPU found");
    assert_eq!(
        Error::PrimaryGPUGetFailure.message(),
        "Failed to get the path of the primary GPU"
    );
    assert_eq!(Error::SessionInitFailure.message(), "Failed to initialize session");
    assert_eq!(Error::SocketCreateFailure.message(), "Failed to create Wayland socket");
    assert_eq!(
        Error::SourceInsertFailure.message(),
        "Failed to insert source into event loop"
    );
    assert_eq!(
        Error::StateCreateFailure(state::Error::KeyboardAddFailure).message(),
        "Failed to add keyboard"
    );
    assert_eq!(
        Error::LibinputAssignSeatFailure.message(),
        "Failed to assign seat to the libinput context"
    );
    assert_eq!(Error::UdevInitFailure.message(), "Failed to initialize Udev backend");
    assert_eq!(Error::DeviceOpenFailure.message(), "Failed to open device");
    assert_eq!(Error::ModesetInitFailure.message(), "Failed to initialize mode setting");
    assert_eq!(
        Error::AllocatorInitFailure.message(),
        "Failed to initialize buffer allocator"
    );
    assert_eq!(Error::BufferAcquireFailure.message(), "Failed to acquire a free buffer");
    assert_eq!(state::Error::KeyboardAddFailure.message(), "Failed to add keyboard");
}

#[test]
fn backend_follows_the_environment() {
    assert_eq!(choose_backend(Some("wayland-0")), BackendKind::Winit);
    assert_eq!(choose_backend(Some("")), BackendKind::Drm);
    assert_eq!(choose_backend(None), BackendKind::Drm);
}

#[test]
fn renderer_is_direct_on_the_primary_gpu() {
    assert_eq!(select_renderer(7, 7), RendererChoice::Direct(7));
}

#[test]
fn renderer_is_bridged_from_another_gpu() {
    assert_eq!(
        select_renderer(7, 9),
        RendererChoice::Bridged { source: 9, target: 7 }
    );
}

#[test]
fn start_runs_its_steps_in_order() {
    let order = [
        StartupStep::EventLoop,
        StartupStep::Display,
        StartupStep::Socket,
        StartupStep::DisplaySource,
        StartupStep::Session,
        StartupStep::PrimaryGpuPath,
        StartupStep::PrimaryGpuNode,
        StartupStep::GpuManager,
        StartupStep::State,
        StartupStep::Udev,
        StartupStep::LibinputSeat,
        StartupStep::InputSource,
        StartupStep::SessionSource,
        StartupStep::UdevSource,
    ];
    let mut step = first_step();
    for (place, expected) in order.iter().enumerate() {
        assert_eq!(step, *expected);
        match advance(step, StepOutcome::Done) {
            Ok(Some(next)) => step = next,
            Ok(None) => assert_eq!(place, order.len() - 1),
            Err(error) => panic!("{:?}", error),
        }
    }
}

#[test]
fn failed_step_ends_the_start_with_its_failure() {
    let failures = [
        (StartupStep::EventLoop, Error::EventLoopCreateFailure),
        (StartupStep::Display, Error::DisplayCreateFailure),
        (StartupStep::Socket, Error::SocketCreateFailure),
        (StartupStep::DisplaySource, Error::SourceInsertFailure),
        (StartupStep::Session, Error::SessionInitFailure),
        (StartupStep::PrimaryGpuPath, Error::PrimaryGPUGetFailure),
        (StartupStep::PrimaryGpuNode, Error::NoGPUFound),
        (StartupStep::GpuManager, Error::GpuManagerCreateFailure),
        (StartupStep::Udev, Error::UdevInitFailure),
        (StartupStep::LibinputSeat, Error::LibinputAssignSeatFailure),
        (StartupStep::InputSource, Error::SourceInsertFailure),
        (StartupStep::SessionSource, Error::SourceInsertFailure),
        (StartupStep::UdevSource, Error::SourceInsertFailure),
    ];
    for (step, error) in failures {
        assert_eq!(advance(step, StepOutcome::Failed), Err(error));
        assert_eq!(failure(step, StepOutcome::Failed), error);
    }
}

#[test]
fn seat_without_gpu_ends_the_start() {
    assert_eq!(
        advance(StartupStep::PrimaryGpuPath, StepOutcome::Nothing),
        Err(Error::NoGPUFound)
    );
}

#[test]
fn state_failure_carries_its_reason() {
    assert_eq!(
        advance(
            StartupStep::State,
            StepOutcome::NoState(state::Error::KeyboardAddFailure)
        ),
        Err(Error::StateCreateFailure(state::Error::KeyboardAddFailure))
    );
}

#[test]
fn window_output_shows_the_window() {
    let mut output = window_output(1280, 800);
    assert_eq!(output.id, OutputId { device: 0, crtc: 0 });
    assert_eq!(output.name, "alioth");
    assert_eq!(output.make, "alioth");
    assert_eq!(output.model, "Alioth Winit Output");
    assert_eq!(output.physical_size, PhysicalSize { width: 0, height: 0 });
    assert_eq!(
        output.current_mode,
        Mode { width: 1280, height: 800, refresh: 60_000 }
    );
    assert_eq!(output.preferred_mode, output.current_mode);
    assert_eq!(output.transform, Transform::Flipped180);
    assert_eq!(output.scale, 1);
    assert_eq!(REFRESH_RATE, 60_000);
    window_resized(&mut output, 640, 480);
    assert_eq!(
        output.current_mode,
        Mode { width: 640, height: 480, refresh: 60_000 }
    );
    assert_eq!(
        output.preferred_mode,
        Mode { width: 1280, height: 800, refresh: 60_000 }
    );
    assert_eq!(output.geometry_size(), (640, 480));
}

#[test]
fn window_loop_ends_on_close_or_quit() {
    assert!(loop_ends(true, Action::Nothing));
    assert!(loop_ends(false, Action::Quit));
    assert!(!loop_ends(false, Action::Nothing));
    assert!(!loop_ends(false, Action::ChangeVt(2)));
}
