use alioth::output::{divide_up, Mode, Output, OutputId, PhysicalSize, Point, Transform};
use alioth::state::{has_crtc, Error, MappedOutput, Space, State};

fn output(device: u64, crtc: u32, width: i32, height: i32, scale: i32) -> Output {
    Output {
        id: OutputId { device, crtc },
        name: format!("DP-{}", crtc),
        physical_size: PhysicalSize { width: 0, height: 0 },
        make: "Unknown".to_string(),
        model: "Unknown".to_string(),
        current_mode: Mode { width, height, refresh: 60_000 },
        preferred_mode: Mode { width, height, refresh: 60_000 },
        transform: Transform::Normal,
        scale,
    }
}

fn mapped(device: u64, crtc: u32, x: i32, width: i32, height: i32) -> MappedOutput {
    MappedOutput { id: OutputId { device, crtc }, x, y: 0, width, height }
}

#[test]
fn state_needs_a_keyboard() {
    assert_eq!(State::new(false, 5u8), Err(Error::KeyboardAddFailure));
    let state = State::new(true, 5u8).unwrap();
    assert_eq!(state.backend_data, 5);
    assert_eq!(state.space.outputs, Vec::new());
}

#[test]
fn outputs_are_mapped_left_to_right() {
    let mut state = State::new(true, ()).unwrap();
    state.map_output_on_the_right(&output(1, 7, 1920, 1080, 1));
    state.map_output_on_the_right(&output(1, 8, 1280, 1024, 1));
    state.map_output_on_the_right(&output(2, 7, 800, 600, 1));
    assert_eq!(
        state.space.outputs,
        vec![
            mapped(1, 7, 0, 1920, 1080),
            mapped(1, 8, 1920, 1280, 1024),
            mapped(2, 7, 3200, 800, 600),
        ]
    );
    assert_eq!(state.space.right_end(), 4000);
}

#[test]
fn mapped_output_moves_when_mapped_again() {
    let mut state = State::new(true, ()).unwrap();
    state.map_output_on_the_right(&output(1, 7, 1920, 1080, 1));
    state.map_output_on_the_right(&output(1, 8, 1280, 1024, 1));
    state.map_output_on_the_right(&output(1, 7, 640, 480, 1));
    assert_eq!(
        state.space.outputs,
        vec![mapped(1, 7, 3200, 640, 480), mapped(1, 8, 1920, 1280, 1024)]
    );
}

#[test]
fn right_edge_stops_at_the_largest_coordinate() {
    let mut state = State::new(true, ()).unwrap();
    state.map_output_on_the_right(&output(1, 1, i32::MAX - 10, 1, 1));
    state.map_output_on_the_right(&output(1, 2, 100, 1, 1));
    state.map_output_on_the_right(&output(1, 3, 5, 1, 1));
    assert_eq!(state.space.outputs[1].x, i32::MAX - 10);
    assert_eq!(state.space.outputs[2].x, i32::MAX);
    assert_eq!(state.space.right_end(), i32::MAX);
}

#[test]
fn output_size_is_rounded_up_at_its_scale() {
    assert_eq!(output(1, 1, 1921, 1080, 2).geometry_size(), (961, 540));
    assert_eq!(output(1, 1, 1920, 1080, 1).geometry_size(), (1920, 1080));
    assert_eq!(output(1, 1, 0, 0, 3).geometry_size(), (0, 0));
    assert_eq!(divide_up(7, 3), 3);
    assert_eq!(divide_up(6, 3), 2);
    assert_eq!(divide_up(i32::MAX, 1), i32::MAX);
    assert_eq!(divide_up(i32::MAX, i32::MAX), 1);
}

#[test]
fn region_holds_its_left_and_upper_edge_only() {
    let mut space = Space::new();
    space.map_output(&output(1, 7, 100, 50, 1), 10, 20);
    let id = OutputId { device: 1, crtc: 7 };
    assert!(space.output_under(id, Point { x: 10, y: 20 }));
    assert!(space.output_under(id, Point { x: 109, y: 69 }));
    assert!(!space.output_under(id, Point { x: 110, y: 20 }));
    assert!(!space.output_under(id, Point { x: 10, y: 70 }));
    assert!(!space.output_under(id, Point { x: 9, y: 20 }));
    assert!(!space.output_under(id, Point { x: 10, y: 19 }));
    assert!(!space.output_under(OutputId { device: 1, crtc: 8 }, Point { x: 10, y: 20 }));
    assert!(space.outputs[0].has_point(Point { x: 50, y: 50 }));
    let far = MappedOutput { id, x: i32::MAX - 5, y: 0, width: 100, height: 1 };
    assert!(far.has_point(Point { x: i32::MAX, y: 0 }));
}

#[test]
fn outputs_of_a_device_leave_the_layout() {
    let mut space = Space::new();
    space.map_output(&output(1, 7, 100, 50, 1), 0, 0);
    space.map_output(&output(2, 7, 100, 50, 1), 100, 0);
    space.map_output(&output(1, 8, 100, 50, 1), 200, 0);
    space.map_output(&output(1, 9, 100, 50, 1), 300, 0);
    assert_eq!(space.find(OutputId { device: 1, crtc: 8 }), Some(2));
    space.retain_of_device(1, &vec![8]);
    assert_eq!(
        space.outputs,
        vec![mapped(2, 7, 100, 100, 50), mapped(1, 8, 200, 100, 50)]
    );
    assert_eq!(space.find(OutputId { device: 1, crtc: 7 }), None);
    space.retain_of_device(2, &Vec::new());
    assert_eq!(space.outputs, vec![mapped(1, 8, 200, 100, 50)]);
}

#[test]
fn crtc_is_found_in_a_list() {
    assert!(has_crtc(&vec![3, 5, 8], 5));
    assert!(!has_crtc(&vec![3, 5, 8], 6));
    assert!(!has_crtc(&Vec::new(), 0));
}
