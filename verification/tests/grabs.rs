use alioth::grabs::resize_grab::{
    commit_fits, commit_location, commit_location_fits, grab_released, handle_commit, limit_side,
    limit_size, Rectangle, ResizeEdge, ResizeSurfaceGrab, ResizeSurfaceState, Size, BOTTOM,
    BOTTOM_LEFT, BOTTOM_RIGHT, BTN_LEFT, LEFT, RIGHT, TOP, TOP_LEFT, TOP_RIGHT,
};
use alioth::input::{button_focus, FocusChange};

fn edges(bits: u32) -> ResizeEdge {
    ResizeEdge::from_bits(bits).unwrap()
}

const START: Rectangle = Rectangle { x: 100, y: 50, w: 400, h: 300 };

#[test]
fn edges_are_made_of_four_bits() {
    assert_eq!(TOP_LEFT, TOP | LEFT);
    assert_eq!(BOTTOM_LEFT, BOTTOM | LEFT);
    assert_eq!(TOP_RIGHT, TOP | RIGHT);
    assert_eq!(BOTTOM_RIGHT, BOTTOM | RIGHT);
    assert_eq!(ResizeEdge::from_bits(0), Some(ResizeEdge { bits: 0 }));
    assert_eq!(ResizeEdge::from_bits(15), Some(ResizeEdge { bits: 15 }));
    assert_eq!(ResizeEdge::from_bits(16), None);
    assert_eq!(ResizeEdge::from_bits(0x8000_0001), None);
    assert!(edges(TOP_LEFT).intersects(LEFT));
    assert!(edges(TOP_LEFT).intersects(TOP_RIGHT));
    assert!(!edges(TOP_LEFT).intersects(BOTTOM_RIGHT));
    assert!(!edges(0).intersects(15));
}

#[test]
fn size_is_held_within_the_limits_of_the_client() {
    let none = Size { w: 0, h: 0 };
    assert_eq!(limit_size(Size { w: 640, h: 480 }, none, none), Size { w: 640, h: 480 });
    assert_eq!(limit_size(Size { w: -5, h: 0 }, none, none), Size { w: 1, h: 1 });
    assert_eq!(
        limit_size(Size { w: 10, h: 900 }, Size { w: 200, h: 100 }, Size { w: 800, h: 600 }),
        Size { w: 200, h: 600 }
    );
    assert_eq!(limit_side(500, 300, 200), 200);
    assert_eq!(limit_side(i32::MAX, -7, 0), i32::MAX);
    assert_eq!(limit_side(i32::MIN, i32::MIN, -3), -3);
}

#[test]
fn grab_ends_when_the_left_button_is_up() {
    assert!(grab_released(&Vec::new()));
    assert!(grab_released(&vec![0x111, 0x112]));
    assert!(!grab_released(&vec![0x111, BTN_LEFT]));
    assert_eq!(BTN_LEFT, 0x110);
}

#[test]
fn resize_runs_from_press_to_last_commit() {
    let (mut grab, mut state) = ResizeSurfaceGrab::start(edges(BOTTOM_RIGHT), START);
    assert_eq!(grab.last_window_size, Size { w: 400, h: 300 });
    assert_eq!(state, ResizeSurfaceState::Resizing { edges: edges(BOTTOM_RIGHT), initial_geo: START });
    assert_eq!(grab.horizontal_pull(), 1);
    assert_eq!(grab.vertical_pull(), 1);
    let none = Size { w: 0, h: 0 };
    assert_eq!(grab.motion(Size { w: 450, h: -20 }, none, none), Size { w: 450, h: 1 });
    assert_eq!(grab.last_window_size, Size { w: 450, h: 1 });
    assert_eq!(grab.button(&vec![BTN_LEFT]), None);
    assert_eq!(state.commit(), Some((edges(BOTTOM_RIGHT), START)));
    assert_eq!(state, ResizeSurfaceState::Resizing { edges: edges(BOTTOM_RIGHT), initial_geo: START });
    let ended = grab.button(&Vec::new()).unwrap();
    assert_eq!(ended, ResizeSurfaceState::Finishing { edges: edges(BOTTOM_RIGHT), initial_geo: START });
    state.finish();
    assert_eq!(state, ended);
    assert_eq!(state.commit(), Some((edges(BOTTOM_RIGHT), START)));
    assert_eq!(state, ResizeSurfaceState::Idle);
    assert_eq!(state.commit(), None);
    state.finish();
    assert_eq!(state, ResizeSurfaceState::Idle);
}

#[test]
fn pull_follows_the_edges() {
    let pulls = [
        (TOP, 0, -1),
        (BOTTOM, 0, 1),
        (LEFT, -1, 0),
        (RIGHT, 1, 0),
        (TOP_LEFT, -1, -1),
        (BOTTOM_LEFT, -1, 1),
        (TOP_RIGHT, 1, -1),
        (0, 0, 0),
        (15, -1, -1),
    ];
    for (bits, horizontal, vertical) in pulls {
        let (grab, _) = ResizeSurfaceGrab::start(edges(bits), START);
        assert_eq!(grab.horizontal_pull(), horizontal);
        assert_eq!(grab.vertical_pull(), vertical);
    }
}

#[test]
fn window_is_anchored_at_the_edge_that_is_not_dragged() {
    let committed = Size { w: 350, h: 320 };
    assert_eq!(commit_location(edges(TOP_LEFT), START, committed), (Some(150), Some(30)));
    assert_eq!(commit_location(edges(LEFT), START, committed), (Some(150), None));
    assert_eq!(commit_location(edges(TOP_RIGHT), START, committed), (None, Some(30)));
    assert_eq!(commit_location(edges(BOTTOM_RIGHT), START, committed), (None, None));
    assert_eq!(commit_location(edges(0), START, committed), (None, None));
}

#[test]
fn commit_moves_a_window_that_is_resized_from_the_left_or_the_top() {
    let committed = Size { w: 350, h: 320 };
    let mut state = ResizeSurfaceState::start(edges(LEFT), START);
    assert!(commit_fits(&state, committed));
    assert_eq!(handle_commit(&mut state, (7, 9), committed), Some((150, 9)));
    let mut state = ResizeSurfaceState::Finishing { edges: edges(TOP), initial_geo: START };
    assert_eq!(handle_commit(&mut state, (7, 9), committed), Some((7, 30)));
    assert_eq!(state, ResizeSurfaceState::Idle);
    assert_eq!(handle_commit(&mut state, (7, 9), committed), None);
    let mut state = ResizeSurfaceState::start(edges(BOTTOM_RIGHT), START);
    assert_eq!(handle_commit(&mut state, (7, 9), committed), None);
}

#[test]
fn move_that_leaves_the_coordinates_does_not_fit() {
    let far = Rectangle { x: i32::MAX, y: i32::MIN, w: 10, h: 10 };
    assert!(!commit_location_fits(edges(LEFT), far, Size { w: 5, h: 10 }));
    assert!(commit_location_fits(edges(LEFT), far, Size { w: 10, h: 10 }));
    assert!(!commit_location_fits(edges(TOP), far, Size { w: 10, h: 11 }));
    assert!(commit_location_fits(edges(RIGHT), far, Size { w: 5, h: 11 }));
    let state = ResizeSurfaceState::Resizing { edges: edges(TOP_LEFT), initial_geo: far };
    assert!(!commit_fits(&state, Size { w: 5, h: 10 }));
    assert!(commit_fits(&ResizeSurfaceState::Idle, Size { w: 5, h: 10 }));
}

#[test]
fn press_outside_a_grab_moves_the_focus() {
    assert_eq!(button_focus(true, false, Some(4)), FocusChange::Raise(4));
    assert_eq!(button_focus(true, false, None), FocusChange::Clear);
    assert_eq!(button_focus(true, true, Some(4)), FocusChange::Keep);
    assert_eq!(button_focus(false, false, Some(4)), FocusChange::Keep);
    assert_eq!(button_focus(false, true, None), FocusChange::Keep);
}
