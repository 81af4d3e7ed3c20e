use alioth::backend::drm::mode::ModeInfo;
use alioth::backend::drm::surface::{
    collect_callbacks, draw_cursor, make_and_model, name_output, negotiate_formats, push_decimal,
    supported_formats, ConnectorInfo, EdidInfo, Element, FrameInput, FrameState, OutputSurface,
    SurfaceProbe, FORMAT_ABGR2101010, FORMAT_ABGR8888, FORMAT_ARGB2101010, FORMAT_ARGB8888,
};
use alioth::backend::Error;
use alioth::cursor;
use alioth::cursor::{CursorElement, CursorImage, CursorImageStatus, CursorRender};
use alioth::output::{Mode, OutputId, PhysicalSize, Point, Transform};
use alioth::state::{MappedOutput, Space};
use drm_fourcc::DrmFourcc;

fn image(side: u32, delay: u32) -> CursorImage {
    CursorImage {
        width: side,
        height: side,
        delay,
        pixels_rgba: vec![0; (4 * side * side) as usize],
    }
}

fn pointer() -> CursorElement {
    CursorElement::from_images(vec![image(2, 100), image(2, 200)], 2)
}

fn mode(width: u16, height: u16, refresh: i32, mode_type: u32) -> ModeInfo {
    ModeInfo { width, height, refresh, mode_type }
}

fn hdmi(modes: Vec<ModeInfo>) -> ConnectorInfo {
    ConnectorInfo {
        handle: 31,
        interface: 11,
        interface_id: 1,
        size: Some(PhysicalSize { width: 600, height: 340 }),
        modes,
    }
}

fn probe(edid: Option<EdidInfo>) -> SurfaceProbe {
    SurfaceProbe { drm_surface: true, gbm_surface: true, edid, cursor: Ok(pointer()) }
}

fn surface() -> OutputSurface {
    OutputSurface::new(
        1,
        7,
        &hdmi(vec![mode(1920, 1080, 60_000, 0x48)]),
        &supported_formats(),
        &vec![FORMAT_ARGB8888],
        probe(None),
    )
    .unwrap()
}

fn input(acquired: bool) -> FrameInput {
    FrameInput {
        acquired,
        elements: Vec::new(),
        pointer: None,
        clock_millis: 16,
        cursor_status: CursorImageStatus::Default,
    }
}

#[test]
fn formats_are_those_of_the_driver() {
    assert_eq!(FORMAT_ABGR2101010, DrmFourcc::Abgr2101010 as u32);
    assert_eq!(FORMAT_ARGB2101010, DrmFourcc::Argb2101010 as u32);
    assert_eq!(FORMAT_ABGR8888, DrmFourcc::Abgr8888 as u32);
    assert_eq!(FORMAT_ARGB8888, DrmFourcc::Argb8888 as u32);
    assert_eq!(
        supported_formats(),
        vec![
            FORMAT_ABGR2101010,
            FORMAT_ARGB2101010,
            FORMAT_ABGR8888,
            FORMAT_ARGB8888
        ]
    );
}

#[test]
fn first_supported_format_wins() {
    let renderer = vec![FORMAT_ARGB8888, 0x1234, FORMAT_ABGR8888, FORMAT_ARGB2101010];
    assert_eq!(
        negotiate_formats(&supported_formats(), &renderer),
        vec![FORMAT_ARGB2101010, FORMAT_ABGR8888, FORMAT_ARGB8888]
    );
    assert_eq!(negotiate_formats(&supported_formats(), &vec![0x1234]), Vec::new());
    assert_eq!(negotiate_formats(&Vec::new(), &renderer), Vec::new());
}

#[test]
fn surface_is_set_up_with_the_preferred_mode() {
    let connector = hdmi(vec![
        mode(640, 480, 59_940, 0x40),
        mode(1920, 1080, 60_000, 0x48),
        mode(1280, 720, 60_000, 0x40),
    ]);
    let edid = EdidInfo { manufacturer: "Screens Inc".to_string(), model: "Ultra".to_string() };
    let surface = OutputSurface::new(
        1,
        7,
        &connector,
        &supported_formats(),
        &vec![FORMAT_ARGB8888, FORMAT_ABGR8888],
        probe(Some(edid)),
    )
    .unwrap();
    assert_eq!(surface.crtc, 7);
    assert_eq!(surface.connector, 31);
    assert_eq!(surface.format, FORMAT_ABGR8888);
    assert_eq!(surface.frame, FrameState::Idle);
    assert_eq!(surface.cursor, pointer());
    assert_eq!(surface.output.id, OutputId { device: 1, crtc: 7 });
    assert_eq!(surface.output.name, "HDMI-A-1");
    assert_eq!(surface.output.physical_size, PhysicalSize { width: 600, height: 340 });
    assert_eq!(surface.output.make, "Screens Inc");
    assert_eq!(surface.output.model, "Ultra");
    assert_eq!(
        surface.output.current_mode,
        Mode { width: 1920, height: 1080, refresh: 60_000 }
    );
    assert_eq!(surface.output.preferred_mode, surface.output.current_mode);
    assert_eq!(surface.output.transform, Transform::Normal);
    assert_eq!(surface.output.scale, 1);
}

#[test]
fn surface_without_preferred_mode_uses_the_first() {
    let connector = hdmi(vec![mode(1024, 768, 75_000, 0x40), mode(1920, 1080, 60_000, 0x40)]);
    let surface = OutputSurface::new(
        1,
        7,
        &connector,
        &supported_formats(),
        &vec![FORMAT_ARGB8888],
        probe(None),
    )
    .unwrap();
    assert_eq!(
        surface.output.current_mode,
        Mode { width: 1024, height: 768, refresh: 75_000 }
    );
    assert_eq!(
        surface.output.preferred_mode,
        Mode { width: 1024, height: 768, refresh: 75_000 }
    );
}

#[test]
fn surface_without_edid_is_of_unknown_make() {
    let mut connector = hdmi(vec![mode(1920, 1080, 60_000, 0x48)]);
    connector.size = None;
    let surface = OutputSurface::new(
        1,
        7,
        &connector,
        &supported_formats(),
        &vec![FORMAT_ARGB8888],
        probe(None),
    )
    .unwrap();
    assert_eq!(surface.output.make, "Unknown");
    assert_eq!(surface.output.model, "Unknown");
    assert_eq!(surface.output.physical_size, PhysicalSize { width: 0, height: 0 });
}

#[test]
fn surface_fails_with_the_first_step_that_failed() {
    let connector = hdmi(vec![mode(1920, 1080, 60_000, 0x48)]);
    let formats = supported_formats();
    let renderer = vec![FORMAT_ARGB8888];
    let broken = Err(cursor::Error::CursorIconLoadFailure);
    let all_failed =
        SurfaceProbe { drm_surface: false, gbm_surface: false, edid: None, cursor: broken.clone() };
    assert_eq!(
        OutputSurface::new(1, 7, &connector, &formats, &renderer, all_failed),
        Err(Error::DrmSurfaceCreateFailure)
    );
    let no_queue =
        SurfaceProbe { drm_surface: true, gbm_surface: false, edid: None, cursor: broken.clone() };
    assert_eq!(
        OutputSurface::new(1, 7, &connector, &formats, &renderer, no_queue),
        Err(Error::GbmSurfaceCreateFailure)
    );
    assert_eq!(
        OutputSurface::new(1, 7, &connector, &formats, &vec![0x1234], probe(None)),
        Err(Error::GbmSurfaceCreateFailure)
    );
    let no_cursor = SurfaceProbe { drm_surface: true, gbm_surface: true, edid: None, cursor: broken };
    assert_eq!(
        OutputSurface::new(1, 7, &connector, &formats, &renderer, no_cursor),
        Err(Error::CursorLoadError(cursor::Error::CursorIconLoadFailure))
    );
}

#[test]
fn outputs_are_named_by_their_connector() {
    assert_eq!(name_output(11, 1), "HDMI-A-1");
    assert_eq!(name_output(14, 1), "eDP-1");
    assert_eq!(name_output(10, 12), "DP-12");
    assert_eq!(name_output(1, 0), "VGA-0");
    assert_eq!(name_output(0, 3), "Unknown-3");
    assert_eq!(name_output(9_999, 4_294_967_295), "Unknown-4294967295");
}

#[test]
fn numbers_are_written_in_decimal() {
    for number in [0u32, 7, 10, 99, 100, 1_234_567_890, u32::MAX] {
        let mut text = String::from("x");
        push_decimal(&mut text, number);
        assert_eq!(text, format!("x{}", number));
    }
}

#[test]
fn make_and_model_fall_back_to_unknown() {
    assert_eq!(make_and_model(None), ("Unknown".to_string(), "Unknown".to_string()));
    let edid = EdidInfo { manufacturer: "ACM".to_string(), model: "X1".to_string() };
    assert_eq!(make_and_model(Some(edid)), ("ACM".to_string(), "X1".to_string()));
}

#[test]
fn one_buffer_is_in_flight_until_the_display_takes_it() {
    let space = Space::new();
    let mut surface = surface();
    assert!(surface.can_request());
    let frame = surface.produce(&space, &input(true));
    assert!(frame.is_ok());
    assert_eq!(surface.frame, FrameState::InFlight);
    assert!(!surface.can_request());
    for acquired in [true, false, true] {
        assert_eq!(
            surface.produce(&space, &input(acquired)).unwrap_err(),
            Error::BufferAcquireFailure
        );
        assert_eq!(surface.frame, FrameState::InFlight);
    }
    assert!(surface.frame_submitted());
    assert_eq!(surface.frame, FrameState::Idle);
    assert!(!surface.frame_submitted());
    assert_eq!(surface.frame, FrameState::Idle);
    assert!(surface.produce(&space, &input(true)).is_ok());
    assert_eq!(surface.frame, FrameState::InFlight);
}

#[test]
fn exhausted_allocator_is_tried_again() {
    let space = Space::new();
    let mut surface = surface();
    assert_eq!(
        surface.produce(&space, &input(false)).unwrap_err(),
        Error::BufferAcquireFailure
    );
    assert_eq!(surface.frame, FrameState::Requested);
    assert!(!surface.frame_submitted());
    assert_eq!(surface.frame, FrameState::Requested);
    assert!(surface.produce(&space, &input(true)).is_ok());
    assert_eq!(surface.frame, FrameState::InFlight);
}

#[test]
fn refused_submission_and_reset_land_the_buffer() {
    let space = Space::new();
    let mut surface = surface();
    surface.submission_failed();
    assert_eq!(surface.frame, FrameState::Idle);
    surface.produce(&space, &input(true)).unwrap();
    surface.submission_failed();
    assert_eq!(surface.frame, FrameState::Requested);
    surface.produce(&space, &input(true)).unwrap();
    surface.reset_buffers();
    assert_eq!(surface.frame, FrameState::Idle);
    surface.reset_buffers();
    assert_eq!(surface.frame, FrameState::Idle);
}

#[test]
fn elements_of_the_output_hear_of_the_frame() {
    let here = OutputId { device: 1, crtc: 7 };
    let there = OutputId { device: 1, crtc: 8 };
    let elements = vec![
        Element { id: 10, primary_output: Some(here) },
        Element { id: 11, primary_output: Some(there) },
        Element { id: 12, primary_output: None },
        Element { id: 13, primary_output: Some(here) },
    ];
    assert_eq!(collect_callbacks(&elements, here), vec![10, 13]);
    assert_eq!(collect_callbacks(&elements, there), vec![11]);
    let mut surface = surface();
    let frame = surface
        .next_buffer(true, &Space::new(), &elements, None, 16, CursorImageStatus::Default)
        .unwrap();
    assert_eq!(frame.frame_callbacks, vec![10, 13]);
    assert_eq!(frame.cursor, CursorRender::Nothing);
}

#[test]
fn pointer_is_drawn_on_the_output_it_is_over() {
    let id = OutputId { device: 1, crtc: 7 };
    let space = Space {
        outputs: vec![MappedOutput { id, x: 100, y: 0, width: 1920, height: 1080 }],
    };
    let mut over = input(true);
    over.pointer = Some(Point { x: 100, y: 0 });
    over.clock_millis = 301;
    let mut surface = surface();
    let frame = surface.produce(&space, &over).unwrap();
    assert_eq!(frame.cursor, CursorRender::Frame(1));
    assert_eq!(surface.cursor.current_delay, 300);
    assert_eq!(surface.cursor.status, CursorImageStatus::Default);

    surface.frame_submitted();
    over.cursor_status = CursorImageStatus::Hidden;
    over.clock_millis = 0;
    let frame = surface.produce(&space, &over).unwrap();
    assert_eq!(frame.cursor, CursorRender::Nothing);
    assert_eq!(surface.cursor.status, CursorImageStatus::Hidden);
    assert_eq!(surface.cursor.current_delay, 300);

    surface.frame_submitted();
    let mut beside = input(true);
    beside.pointer = Some(Point { x: 99, y: 0 });
    beside.cursor_status = CursorImageStatus::Surface;
    let frame = surface.produce(&space, &beside).unwrap();
    assert_eq!(frame.cursor, CursorRender::Nothing);
    assert_eq!(surface.cursor.status, CursorImageStatus::Hidden);
}

#[test]
fn pointer_without_a_frame_is_not_drawn() {
    let mut empty = CursorElement::from_images(Vec::new(), 24);
    assert_eq!(draw_cursor(&empty), CursorRender::Nothing);
    empty.set_status(CursorImageStatus::Surface);
    assert_eq!(draw_cursor(&empty), CursorRender::Surface);
    assert_eq!(draw_cursor(&pointer()), CursorRender::Frame(0));
}
