use alioth::backend::drm::device::Device;
use alioth::backend::drm::handlers::{
    Connection, ConnectorOutcome, DrmEvent, DrmScanEvent, VblankOutcome,
};
use alioth::backend::drm::mode::ModeInfo;
use alioth::backend::drm::scanner::{Assignment, ConnectorReading, ScanEvent};
use alioth::backend::drm::session::SessionEvent;
use alioth::backend::drm::surface::{
    ConnectorInfo, EdidInfo, Element, FrameInput, FrameState, SurfaceProbe, FORMAT_ARGB8888,
};
use alioth::backend::drm::udev::{DeviceOpening, UdevEvent};
use alioth::backend::drm::{DrmData, GpuManager, RendererChoice, SessionState};
use alioth::backend::Error;
use alioth::cursor;
use alioth::cursor::{CursorElement, CursorImage, CursorImageStatus, CursorRender};
use alioth::output::{Mode, OutputId, PhysicalSize};
use alioth::state::{MappedOutput, State};

const CARD: u64 = 0xe200;
const RENDER: u64 = 0xe280;
const PRIMARY: u64 = 0xe280;

fn state() -> State<DrmData> {
    State::new(true, DrmData::new(PRIMARY)).unwrap()
}

fn opened(render_node: Option<u64>) -> DeviceOpening {
    DeviceOpening { opened: true, drm: true, gbm: true, render_node }
}

fn reading(connector: u32, connected: bool, crtc: Option<u32>) -> ConnectorReading {
    ConnectorReading { connector, connected, crtc }
}

fn input(acquired: bool) -> FrameInput {
    FrameInput {
        acquired,
        elements: vec![Element {
            id: 40,
            primary_output: Some(OutputId { device: CARD, crtc: 7 }),
        }],
        pointer: None,
        clock_millis: 16,
        cursor_status: CursorImageStatus::Default,
    }
}

fn pointer() -> CursorElement {
    let image = CursorImage { width: 1, height: 1, delay: 10, pixels_rgba: vec![0; 4] };
    CursorElement::from_images(vec![image], 1)
}

fn connection(connector: u32, crtc: u32, acquired: bool) -> Connection {
    Connection {
        crtc,
        connector: ConnectorInfo {
            handle: connector,
            interface: 11,
            interface_id: 1,
            size: Some(PhysicalSize { width: 600, height: 340 }),
            modes: vec![
                ModeInfo { width: 1280, height: 720, refresh: 60_000, mode_type: 0x40 },
                ModeInfo { width: 1920, height: 1080, refresh: 60_000, mode_type: 0x48 },
            ],
        },
        renderer_formats: vec![FORMAT_ARGB8888],
        probe: SurfaceProbe {
            drm_surface: true,
            gbm_surface: true,
            edid: Some(EdidInfo { manufacturer: "ACM".to_string(), model: "X1".to_string() }),
            cursor: Ok(pointer()),
        },
        first_frame: input(acquired),
    }
}

/// A state with the card added, and a surface for each (connector, crtc).
fn with_surfaces(render_node: Option<u64>, driven: &[(u32, u32)]) -> State<DrmData> {
    let mut state = state();
    let snapshot = driven.iter().map(|(connector, crtc)| reading(*connector, true, Some(*crtc)));
    let events = state.on_device_added(CARD, opened(render_node), &snapshot.collect()).unwrap();
    assert_eq!(events.len(), driven.len());
    for (connector, crtc) in driven {
        let outcome = state
            .on_drm_connector_event(
                CARD,
                DrmScanEvent::Connected(connection(*connector, *crtc, true)),
            )
            .unwrap();
        assert!(matches!(outcome, ConnectorOutcome::Created { frame: Some(_), .. }));
    }
    state
}

#[test]
fn added_device_with_one_connector_gets_a_surface() {
    let mut state = state();
    let events = state
        .on_udev_event(UdevEvent::Added {
            node: Some(CARD),
            opening: opened(Some(RENDER)),
            snapshot: vec![reading(31, true, Some(7)), reading(32, false, None)],
        })
        .unwrap();
    assert_eq!(events, vec![ScanEvent::Connected { connector: 31, crtc: 7 }]);
    assert_eq!(state.backend_data.devices.len(), 1);
    assert_eq!(state.backend_data.devices[0].surfaces, Vec::new());

    let outcome =
        state.on_drm_connector_event(CARD, DrmScanEvent::Connected(connection(31, 7, true)));
    let frame = match outcome {
        Ok(ConnectorOutcome::Created { renderer, frame: Some(frame) }) => {
            assert_eq!(renderer, RendererChoice::Direct(RENDER));
            frame
        }
        other => panic!("{:?}", other),
    };
    assert_eq!(frame.frame_callbacks, vec![40]);
    assert_eq!(frame.cursor, CursorRender::Nothing);

    let device = &state.backend_data.devices[0];
    assert_eq!(device.node, CARD);
    assert_eq!(device.render_node, RENDER);
    assert!(device.active);
    assert_eq!(device.surfaces.len(), 1);
    let surface = &device.surfaces[0];
    assert_eq!(surface.crtc, 7);
    assert_eq!(surface.connector, 31);
    assert_eq!(surface.format, FORMAT_ARGB8888);
    assert_eq!(surface.frame, FrameState::InFlight);
    assert_eq!(surface.output.name, "HDMI-A-1");
    assert_eq!(surface.output.make, "ACM");
    assert_eq!(surface.output.model, "X1");
    assert_eq!(
        surface.output.current_mode,
        Mode { width: 1920, height: 1080, refresh: 60_000 }
    );
    assert_eq!(
        state.space.outputs,
        vec![MappedOutput {
            id: OutputId { device: CARD, crtc: 7 },
            x: 0,
            y: 0,
            width: 1920,
            height: 1080
        }]
    );
}

#[test]
fn device_that_cannot_be_opened_is_left_out() {
    let cases = [
        (
            DeviceOpening { opened: false, drm: false, gbm: false, render_node: None },
            Error::DeviceOpenFailure,
        ),
        (
            DeviceOpening { opened: true, drm: false, gbm: false, render_node: None },
            Error::ModesetInitFailure,
        ),
        (
            DeviceOpening { opened: true, drm: true, gbm: false, render_node: Some(RENDER) },
            Error::AllocatorInitFailure,
        ),
    ];
    for (opening, error) in cases {
        let mut state = state();
        let before = state.clone();
        let snapshot = vec![reading(31, true, Some(7))];
        assert_eq!(state.on_device_added(CARD, opening, &snapshot), Err(error));
        assert_eq!(state, before);
    }
}

#[test]
fn device_without_render_node_renders_itself() {
    let mut state = state();
    state.on_device_added(CARD, opened(None), &Vec::new()).unwrap();
    assert_eq!(state.backend_data.devices[0].render_node, CARD);
    assert_eq!(state.backend_data.gpu_manager, GpuManager { nodes: vec![PRIMARY, CARD] });
    assert!(state.backend_data.gpu_manager.has_node(CARD));
    state.on_device_removed(CARD);
    assert_eq!(state.backend_data.devices, Vec::new());
    assert_eq!(state.backend_data.gpu_manager, GpuManager { nodes: vec![PRIMARY] });
}

#[test]
fn primary_gpu_stays_registered() {
    let mut state = state();
    state.on_device_added(CARD, opened(Some(PRIMARY)), &Vec::new()).unwrap();
    assert_eq!(state.backend_data.gpu_manager, GpuManager { nodes: vec![PRIMARY] });
    state.on_device_removed(CARD);
    assert_eq!(state.backend_data.gpu_manager, GpuManager { nodes: vec![PRIMARY] });
    assert_eq!(state.backend_data.primary_gpu, PRIMARY);
}

#[test]
fn device_added_again_takes_the_place_of_the_old_one() {
    let mut state = with_surfaces(Some(0xe281), &[(31, 7)]);
    state.on_device_added(0xe300, opened(None), &Vec::new()).unwrap();
    let events = state
        .on_device_added(CARD, opened(Some(0xe282)), &vec![reading(33, true, Some(9))])
        .unwrap();
    assert_eq!(events, vec![ScanEvent::Connected { connector: 33, crtc: 9 }]);
    let nodes: Vec<u64> = state.backend_data.devices.iter().map(|device| device.node).collect();
    assert_eq!(nodes, vec![0xe300, CARD]);
    assert_eq!(state.backend_data.devices[1].surfaces, Vec::new());
    assert_eq!(
        state.backend_data.devices[1].drm_scanner.assignments,
        vec![Assignment { connector: 33, crtc: 9 }]
    );
    assert_eq!(state.backend_data.gpu_manager.nodes, vec![PRIMARY, 0xe300, 0xe282]);
    assert_eq!(state.space.outputs, Vec::new());
}

#[test]
fn notifications_for_unknown_devices_do_nothing() {
    let mut state = with_surfaces(Some(RENDER), &[(31, 7)]);
    let before = state.clone();
    assert_eq!(state.on_device_changed(0xe300, &Vec::new()), Vec::new());
    state.on_device_removed(0xe300);
    assert_eq!(
        state.on_drm_connector_event(
            0xe300,
            DrmScanEvent::Disconnected { connector: 31, crtc: 7 }
        ),
        Ok(ConnectorOutcome::Ignored)
    );
    assert_eq!(
        state.on_drm_connector_event(0xe300, DrmScanEvent::Connected(connection(31, 7, true))),
        Ok(ConnectorOutcome::Ignored)
    );
    assert!(matches!(
        state.on_drm_event(0xe300, DrmEvent::VBlank(7), &input(true)),
        VblankOutcome::Dropped
    ));
    assert_eq!(state, before);
}

#[test]
fn notifications_for_what_is_no_display_device_do_nothing() {
    let mut state = with_surfaces(Some(RENDER), &[(31, 7)]);
    let before = state.clone();
    let events = [
        UdevEvent::Added { node: None, opening: opened(None), snapshot: Vec::new() },
        UdevEvent::Changed { node: None, snapshot: Vec::new() },
        UdevEvent::Removed { node: None },
    ];
    for event in events {
        assert_eq!(state.on_udev_event(event), Ok(Vec::new()));
        assert_eq!(state, before);
    }
}

#[test]
fn surface_goes_with_its_connector() {
    let mut state = with_surfaces(Some(RENDER), &[(31, 7), (32, 8)]);
    assert_eq!(state.space.outputs.len(), 2);
    let events = state
        .on_udev_event(UdevEvent::Changed {
            node: Some(CARD),
            snapshot: vec![reading(31, false, None), reading(32, true, Some(8))],
        })
        .unwrap();
    assert_eq!(events, vec![ScanEvent::Disconnected { connector: 31, crtc: 7 }]);
    let device = &state.backend_data.devices[0];
    assert_eq!(device.surfaces.len(), 1);
    assert_eq!(device.surfaces[0].crtc, 8);
    assert_eq!(device.crtcs(), vec![8]);
    assert_eq!(device.find_surface(7), None);
    assert_eq!(device.find_surface(8), Some(0));
    assert_eq!(
        state.space.outputs,
        vec![MappedOutput {
            id: OutputId { device: CARD, crtc: 8 },
            x: 1920,
            y: 0,
            width: 1920,
            height: 1080
        }]
    );
    assert_eq!(
        state.on_drm_connector_event(CARD, DrmScanEvent::Disconnected { connector: 31, crtc: 7 }),
        Ok(ConnectorOutcome::Ignored)
    );
}

#[test]
fn second_scan_without_change_yields_no_event() {
    let mut state = with_surfaces(Some(RENDER), &[(31, 7)]);
    let snapshot = vec![reading(31, true, Some(7)), reading(32, true, None)];
    let before = state.clone();
    assert_eq!(state.on_device_changed(CARD, &snapshot), Vec::new());
    assert_eq!(state, before);
    assert_eq!(state.on_device_changed(CARD, &snapshot), Vec::new());
    assert_eq!(state, before);
}

#[test]
fn disconnected_connector_loses_its_surface() {
    let mut state = with_surfaces(Some(RENDER), &[(31, 7), (32, 8)]);
    assert_eq!(
        state.on_drm_connector_event(CARD, DrmScanEvent::Disconnected { connector: 32, crtc: 7 }),
        Ok(ConnectorOutcome::Ignored)
    );
    assert_eq!(state.backend_data.devices[0].surfaces.len(), 2);
    assert_eq!(
        state.on_drm_connector_event(CARD, DrmScanEvent::Disconnected { connector: 31, crtc: 7 }),
        Ok(ConnectorOutcome::Removed)
    );
    assert_eq!(state.backend_data.devices[0].crtcs(), vec![8]);
    assert_eq!(state.space.outputs.len(), 1);
    assert_eq!(state.space.outputs[0].id, OutputId { device: CARD, crtc: 8 });
}

#[test]
fn stale_connection_is_ignored() {
    let mut state = with_surfaces(Some(RENDER), &[(31, 7)]);
    let before = state.clone();
    assert_eq!(
        state.on_drm_connector_event(CARD, DrmScanEvent::Connected(connection(31, 9, true))),
        Ok(ConnectorOutcome::Ignored)
    );
    assert_eq!(
        state.on_drm_connector_event(CARD, DrmScanEvent::Connected(connection(35, 7, true))),
        Ok(ConnectorOutcome::Ignored)
    );
    assert_eq!(state, before);
}

#[test]
fn connector_whose_surface_fails_is_not_presented() {
    let mut state = state();
    state
        .on_device_added(
            CARD,
            opened(Some(RENDER)),
            &vec![reading(31, true, Some(7)), reading(32, true, Some(8))],
        )
        .unwrap();
    let mut broken = connection(31, 7, true);
    broken.probe.drm_surface = false;
    let before = state.clone();
    assert_eq!(
        state.on_drm_connector_event(CARD, DrmScanEvent::Connected(broken)),
        Err(Error::DrmSurfaceCreateFailure)
    );
    let mut no_queue = connection(31, 7, true);
    no_queue.probe.gbm_surface = false;
    assert_eq!(
        state.on_drm_connector_event(CARD, DrmScanEvent::Connected(no_queue)),
        Err(Error::GbmSurfaceCreateFailure)
    );
    let mut no_format = connection(31, 7, true);
    no_format.renderer_formats = vec![0x1234];
    assert_eq!(
        state.on_drm_connector_event(CARD, DrmScanEvent::Connected(no_format)),
        Err(Error::GbmSurfaceCreateFailure)
    );
    let mut no_cursor = connection(31, 7, true);
    no_cursor.probe.cursor = Err(cursor::Error::CursorIconLoadFailure);
    assert_eq!(
        state.on_drm_connector_event(CARD, DrmScanEvent::Connected(no_cursor)),
        Err(Error::CursorLoadError(cursor::Error::CursorIconLoadFailure))
    );
    assert_eq!(state, before);
    let sibling = state.on_drm_connector_event(CARD, DrmScanEvent::Connected(connection(32, 8, true)));
    assert!(matches!(sibling, Ok(ConnectorOutcome::Created { frame: Some(_), .. })));
    assert_eq!(state.backend_data.devices[0].crtcs(), vec![8]);
}

#[test]
fn surface_without_first_buffer_asks_again() {
    let mut state = state();
    state.on_device_added(CARD, opened(Some(RENDER)), &vec![reading(31, true, Some(7))]).unwrap();
    let outcome =
        state.on_drm_connector_event(CARD, DrmScanEvent::Connected(connection(31, 7, false)));
    assert_eq!(
        outcome,
        Ok(ConnectorOutcome::Created { renderer: RendererChoice::Direct(RENDER), frame: None })
    );
    assert_eq!(state.backend_data.devices[0].surfaces[0].frame, FrameState::Requested);
    let outcome = state.on_drm_event(CARD, DrmEvent::VBlank(7), &input(true));
    assert!(matches!(outcome, VblankOutcome::Produced { .. }));
    assert_eq!(state.backend_data.devices[0].surfaces[0].frame, FrameState::InFlight);
}

#[test]
fn taken_buffer_is_followed_by_the_next_frame() {
    let mut state = with_surfaces(Some(RENDER), &[(31, 7), (32, 8)]);
    let outcome = state.on_drm_event(CARD, DrmEvent::VBlank(8), &input(true));
    match outcome {
        VblankOutcome::Produced { renderer, frame } => {
            assert_eq!(renderer, RendererChoice::Direct(RENDER));
            assert_eq!(frame.frame_callbacks, Vec::new());
        }
        other => panic!("{:?}", other),
    }
    let outcome = state.on_drm_event(CARD, DrmEvent::VBlank(7), &input(false));
    match outcome {
        VblankOutcome::Failed { renderer, error } => {
            assert_eq!(renderer, RendererChoice::Direct(RENDER));
            assert_eq!(error, Error::BufferAcquireFailure);
        }
        other => panic!("{:?}", other),
    }
    let surfaces = &state.backend_data.devices[0].surfaces;
    assert_eq!(surfaces[0].frame, FrameState::Requested);
    assert_eq!(surfaces[1].frame, FrameState::InFlight);
}

#[test]
fn secondary_gpu_renders_through_a_bridge() {
    let mut state = with_surfaces(Some(0xe281), &[(31, 7)]);
    let outcome = state.on_drm_event(CARD, DrmEvent::VBlank(7), &input(true));
    match outcome {
        VblankOutcome::Produced { renderer, .. } => {
            assert_eq!(renderer, RendererChoice::Bridged { source: 0xe281, target: PRIMARY });
        }
        other => panic!("{:?}", other),
    }
}

#[test]
fn notification_for_a_removed_surface_is_dropped() {
    let mut state = with_surfaces(Some(RENDER), &[(31, 7)]);
    state.on_device_changed(CARD, &vec![reading(31, false, None)]);
    let before = state.clone();
    assert!(matches!(
        state.on_drm_event(CARD, DrmEvent::VBlank(7), &input(true)),
        VblankOutcome::Dropped
    ));
    assert_eq!(state, before);
    state.on_device_removed(CARD);
    let before = state.clone();
    assert!(matches!(
        state.on_drm_event(CARD, DrmEvent::VBlank(7), &input(true)),
        VblankOutcome::Dropped
    ));
    assert_eq!(state, before);
}

#[test]
fn device_errors_produce_no_frame() {
    let mut state = with_surfaces(Some(RENDER), &[(31, 7)]);
    let before = state.clone();
    assert!(matches!(
        state.on_drm_event(CARD, DrmEvent::Error, &input(true)),
        VblankOutcome::Dropped
    ));
    assert_eq!(state, before);
}

#[test]
fn pause_and_resume_keep_every_surface() {
    let mut state = with_surfaces(Some(RENDER), &[(31, 7), (32, 8)]);
    state.on_device_added(0xe300, opened(None), &vec![reading(41, true, Some(3))]).unwrap();
    state
        .on_drm_connector_event(0xe300, DrmScanEvent::Connected(connection(41, 3, true)))
        .unwrap();
    let before = state.clone();

    assert_eq!(state.on_session_event(SessionEvent::PauseSession, true), Vec::new());
    assert_eq!(state.backend_data.session, SessionState::Paused);
    assert!(state.backend_data.devices.iter().all(|device| !device.active));
    assert_eq!(state.space, before.space);
    for (device, earlier) in state.backend_data.devices.iter().zip(&before.backend_data.devices) {
        assert_eq!(device.surfaces, earlier.surfaces);
    }
    let paused = state.clone();
    assert!(matches!(
        state.on_drm_event(CARD, DrmEvent::VBlank(7), &input(true)),
        VblankOutcome::Dropped
    ));
    assert_eq!(state, paused);

    assert_eq!(state.on_session_event(SessionEvent::ActivateSession, false), Vec::new());
    assert_eq!(state, paused);

    let repaint = state.on_session_event(SessionEvent::ActivateSession, true);
    assert_eq!(
        repaint,
        vec![
            OutputId { device: CARD, crtc: 7 },
            OutputId { device: CARD, crtc: 8 },
            OutputId { device: 0xe300, crtc: 3 },
        ]
    );
    assert_eq!(state.backend_data.session, SessionState::Active);
    assert_eq!(state.space, before.space);
    for (device, earlier) in state.backend_data.devices.iter().zip(&before.backend_data.devices) {
        assert!(device.active);
        assert_eq!(device.surfaces.len(), earlier.surfaces.len());
        for (surface, old) in device.surfaces.iter().zip(&earlier.surfaces) {
            assert_eq!(surface.frame, FrameState::Idle);
            assert_eq!(surface.output, old.output);
            assert_eq!(surface.crtc, old.crtc);
            assert_eq!(surface.connector, old.connector);
        }
    }
    for id in repaint {
        let outcome = state.on_drm_event(id.device, DrmEvent::VBlank(id.crtc), &input(true));
        assert!(matches!(outcome, VblankOutcome::Produced { .. }));
    }
    for device in &state.backend_data.devices {
        for surface in &device.surfaces {
            assert_eq!(surface.frame, FrameState::InFlight);
        }
    }
}

#[test]
fn surface_set_up_during_a_pause_waits_for_the_resume() {
    let mut state = state();
    state.on_session_event(SessionEvent::PauseSession, true);
    state.on_device_added(CARD, opened(Some(RENDER)), &vec![reading(31, true, Some(7))]).unwrap();
    assert!(!state.backend_data.devices[0].active);
    let outcome =
        state.on_drm_connector_event(CARD, DrmScanEvent::Connected(connection(31, 7, true)));
    assert_eq!(
        outcome,
        Ok(ConnectorOutcome::Created { renderer: RendererChoice::Direct(RENDER), frame: None })
    );
    assert_eq!(state.backend_data.devices[0].surfaces[0].frame, FrameState::Idle);
    let repaint = state.on_session_event(SessionEvent::ActivateSession, true);
    assert_eq!(repaint, vec![OutputId { device: CARD, crtc: 7 }]);
}

#[test]
fn new_surface_takes_the_place_of_one_on_the_same_crtc() {
    let mut state = with_surfaces(Some(RENDER), &[(31, 7), (32, 8)]);
    let outcome =
        state.on_drm_connector_event(CARD, DrmScanEvent::Connected(connection(31, 7, true)));
    assert!(matches!(outcome, Ok(ConnectorOutcome::Created { .. })));
    assert_eq!(state.backend_data.devices[0].crtcs(), vec![8, 7]);
    assert_eq!(state.space.outputs.len(), 2);
    assert_eq!(state.space.outputs[0].id, OutputId { device: CARD, crtc: 7 });
    assert_eq!(state.space.outputs[0].x, 3840);
}

#[test]
fn device_keeps_its_own_books() {
    let mut device = Device::new(CARD, RENDER, true);
    assert_eq!(device.crtcs(), Vec::new());
    let events = device.scan_connectors(&vec![reading(31, true, Some(7))]);
    assert_eq!(events, vec![ScanEvent::Connected { connector: 31, crtc: 7 }]);
    assert!(!device.remove_surface(31, 7));
    device.pause();
    assert!(!device.active);
    device.activate();
    assert!(device.active);
    let data = DrmData::new(PRIMARY);
    assert_eq!(data.find_device(CARD), None);
    assert!(data.is_active());
    assert_eq!(data.driven(), Vec::new());
}
