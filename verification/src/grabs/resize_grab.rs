//! Resizing a window by its edges.

use vstd::prelude::*;

verus! {

/// The upper edge.
pub const TOP: u32 = 0b0001;

/// The lower edge.
pub const BOTTOM: u32 = 0b0010;

/// The left edge.
pub const LEFT: u32 = 0b0100;

/// The right edge.
pub const RIGHT: u32 = 0b1000;

/// The upper and the left edge.
pub const TOP_LEFT: u32 = 0b0101;

/// The lower and the left edge.
pub const BOTTOM_LEFT: u32 = 0b0110;

/// The upper and the right edge.
pub const TOP_RIGHT: u32 = 0b1001;

/// The lower and the right edge.
pub const BOTTOM_RIGHT: u32 = 0b1010;

/// All four edges.
pub const ALL_EDGES: u32 = 0b1111;

/// The button that holds a grab: the left one.
pub const BTN_LEFT: u32 = 0x110;

/// The edges by which a window is resized, one bit for each.
#[derive(Clone, Copy, Debug, PartialEq, Eq, Hash, Structural)]
pub struct ResizeEdge {
    pub bits: u32,
}

/// A width and a height.
#[derive(Clone, Copy, Debug, PartialEq, Eq, Structural)]
pub struct Size {
    pub w: i32,
    pub h: i32,
}

/// A place and a size.
#[derive(Clone, Copy, Debug, PartialEq, Eq, Structural)]
pub struct Rectangle {
    pub x: i32,
    pub y: i32,
    pub w: i32,
    pub h: i32,
}

/// Where a window stands with being resized.
#[derive(Clone, Copy, Debug, PartialEq, Eq, Structural)]
pub enum ResizeSurfaceState {
    /// It is not being resized.
    Idle,
    /// The pointer resizes it.
    Resizing { edges: ResizeEdge, initial_geo: Rectangle },
    /// The pointer has let go, and the client has not yet committed the last size.
    Finishing { edges: ResizeEdge, initial_geo: Rectangle },
}

/// The larger of two numbers.
pub open spec fn larger(a: int, b: int) -> int {
    if a >= b {
        a
    } else {
        b
    }
}

/// The smaller of two numbers.
pub open spec fn smaller(a: int, b: int) -> int {
    if a <= b {
        a
    } else {
        b
    }
}

/// A side of a window held within the limits of its client: at least the smallest
/// side, which is at least one, and at most the largest, where zero stands for no limit.
/// Where the limits cross, the largest side counts.
pub open spec fn limited(side: i32, least: i32, most: i32) -> int {
    smaller(
        larger(side as int, larger(least as int, 1)),
        if most == 0 {
            i32::MAX as int
        } else {
            most as int
        },
    )
}

/// Where the window goes on one axis when its client commits a new size while the
/// edge at the start of that axis is dragged: the far edge stays where it was.
pub open spec fn anchored(start: i32, extent: i32, committed: i32) -> int {
    start + (extent - committed)
}

impl ResizeEdge {
    /// Whether any of the edges of `mask` is among these.
    pub open spec fn touches(self, mask: u32) -> bool {
        self.bits & mask != 0
    }

    /// The edges with these bits, if each bit stands for an edge.
    pub fn from_bits(bits: u32) -> (edges: Option<ResizeEdge>)
        ensures
            edges == if bits & !ALL_EDGES == 0 {
                Some(ResizeEdge { bits })
            } else {
                None::<ResizeEdge>
            },
    {
        if bits & !ALL_EDGES == 0 {
            Some(ResizeEdge { bits })
        } else {
            None
        }
    }

    /// Whether any of the edges of `mask` is among these.
    pub fn intersects(&self, mask: u32) -> (yes: bool)
        ensures
            yes == self.touches(mask),
    {
        self.bits & mask != 0
    }
}

impl ResizeSurfaceState {
    /// The state after a commit of the client: a resize that was finishing is over.
    pub open spec fn committed(self) -> ResizeSurfaceState {
        match self {
            ResizeSurfaceState::Finishing { .. } => ResizeSurfaceState::Idle,
            other => other,
        }
    }

    /// The edges and the first geometry of the resize that a commit belongs to.
    pub open spec fn resize(self) -> Option<(ResizeEdge, Rectangle)> {
        match self {
            ResizeSurfaceState::Resizing { edges, initial_geo } => Some((edges, initial_geo)),
            ResizeSurfaceState::Finishing { edges, initial_geo } => Some((edges, initial_geo)),
            ResizeSurfaceState::Idle => None,
        }
    }

    /// The resize that starts with the pointer taking the edges of a window.
    pub fn start(edges: ResizeEdge, initial_window_rect: Rectangle) -> (state: ResizeSurfaceState)
        ensures
            state == (ResizeSurfaceState::Resizing { edges, initial_geo: initial_window_rect }),
    {
        ResizeSurfaceState::Resizing { edges, initial_geo: initial_window_rect }
    }

    /// The pointer lets go: a resize that was going on waits for the client's last
    /// commit.
    pub fn finish(&mut self)
        ensures
            *final(self) == match *old(self) {
                ResizeSurfaceState::Resizing { edges, initial_geo } => ResizeSurfaceState::Finishing {
                    edges,
                    initial_geo,
                },
                other => other,
            },
    {
        match *self {
            ResizeSurfaceState::Resizing { edges, initial_geo } => {
                *self = ResizeSurfaceState::Finishing { edges, initial_geo };
            },
            _ => {},
        }
    }

    /// The client commits: returns the edges and the first geometry of the resize the
    /// commit belongs to, and ends a resize that was finishing.
    pub fn commit(&mut self) -> (resize: Option<(ResizeEdge, Rectangle)>)
        ensures
            resize == old(self).resize(),
            *final(self) == old(self).committed(),
    {
        match *self {
            ResizeSurfaceState::Resizing { edges, initial_geo } => Some((edges, initial_geo)),
            ResizeSurfaceState::Finishing { edges, initial_geo } => {
                *self = ResizeSurfaceState::Idle;
                Some((edges, initial_geo))
            },
            ResizeSurfaceState::Idle => None,
        }
    }
}

/// Holds one side of a window within the limits of its client.
pub fn limit_side(side: i32, least: i32, most: i32) -> (held: i32)
    ensures
        held == limited(side, least, most),
{
    let floor = if least >= 1 {
        least
    } else {
        1
    };
    let ceiling = if most == 0 {
        i32::MAX
    } else {
        most
    };
    let raised = if side >= floor {
        side
    } else {
        floor
    };
    if raised <= ceiling {
        raised
    } else {
        ceiling
    }
}

/// Holds the size that the pointer asks for within the limits of the client.
pub fn limit_size(wanted: Size, min_size: Size, max_size: Size) -> (held: Size)
    ensures
        held.w == limited(wanted.w, min_size.w, max_size.w),
        held.h == limited(wanted.h, min_size.h, max_size.h),
{
    Size {
        w: limit_side(wanted.w, min_size.w, max_size.w),
        h: limit_side(wanted.h, min_size.h, max_size.h),
    }
}

/// Whether the grab ends: the button that holds it is no longer pressed.
pub fn grab_released(pressed: &Vec<u32>) -> (released: bool)
    ensures
        released == !pressed@.contains(BTN_LEFT),
{
    let mut i: usize = 0;
    while i < pressed.len()
        invariant
            0 <= i <= pressed@.len(),
            forall|k: int| 0 <= k < i ==> pressed@[k] != BTN_LEFT,
        decreases pressed@.len() - i,
    {
        if pressed[i] == BTN_LEFT {
            return false;
        }
        i += 1;
    }
    true
}

/// Where a window goes when its client commits the size `committed` during a resize
/// that began at `initial_geo`: on each axis whose near edge is dragged, so that the far
/// edge stays where it was; on the other axes it stays. `None` on an axis means that the
/// window stays there.
pub fn commit_location(edges: ResizeEdge, initial_geo: Rectangle, committed: Size) -> (location: (
    Option<i32>,
    Option<i32>,
))
    requires
        edges.touches(LEFT) ==> i32::MIN <= anchored(initial_geo.x, initial_geo.w, committed.w)
            <= i32::MAX,
        edges.touches(TOP) ==> i32::MIN <= anchored(initial_geo.y, initial_geo.h, committed.h)
            <= i32::MAX,
    ensures
        location.0 == if edges.touches(TOP_LEFT) && edges.touches(LEFT) {
            Some(anchored(initial_geo.x, initial_geo.w, committed.w) as i32)
        } else {
            None::<i32>
        },
        location.1 == if edges.touches(TOP_LEFT) && edges.touches(TOP) {
            Some(anchored(initial_geo.y, initial_geo.h, committed.h) as i32)
        } else {
            None::<i32>
        },
{
    if !edges.intersects(TOP_LEFT) {
        return (None, None);
    }
    let x = if edges.intersects(LEFT) {
        let moved: i64 = initial_geo.x as i64 + (initial_geo.w as i64 - committed.w as i64);
        Some(moved as i32)
    } else {
        None
    };
    let y = if edges.intersects(TOP) {
        let moved: i64 = initial_geo.y as i64 + (initial_geo.h as i64 - committed.h as i64);
        Some(moved as i32)
    } else {
        None
    };
    (x, y)
}

/// Whether a window may be moved as `commit_location` says: on each axis whose near
/// edge is dragged the new place is a coordinate.
pub fn commit_location_fits(edges: ResizeEdge, initial_geo: Rectangle, committed: Size) -> (fits:
    bool)
    ensures
        fits == ((edges.touches(LEFT) ==> i32::MIN <= anchored(
            initial_geo.x,
            initial_geo.w,
            committed.w,
        ) <= i32::MAX) && (edges.touches(TOP) ==> i32::MIN <= anchored(
            initial_geo.y,
            initial_geo.h,
            committed.h,
        ) <= i32::MAX)),
{
    let x: i64 = initial_geo.x as i64 + (initial_geo.w as i64 - committed.w as i64);
    let y: i64 = initial_geo.y as i64 + (initial_geo.h as i64 - committed.h as i64);
    let x_fits = !edges.intersects(LEFT) || (i32::MIN as i64 <= x && x <= i32::MAX as i64);
    let y_fits = !edges.intersects(TOP) || (i32::MIN as i64 <= y && y <= i32::MAX as i64);
    x_fits && y_fits
}

/// A resize of a window by the pointer, from the press of the button to its release.
#[derive(Clone, Copy, Debug, PartialEq, Eq, Structural)]
pub struct ResizeSurfaceGrab {
    pub edges: ResizeEdge,
    /// Where the window was, and how large, when the resize began.
    pub initial_geo: Rectangle,
    /// The size that was last asked of the client.
    pub last_window_size: Size,
}

/// How the pointer's way along one axis counts for the size: not at all where no edge
/// of the axis is dragged, against its direction where the near edge is dragged, with
/// it where only the far edge is.
pub open spec fn pull(edges: ResizeEdge, near: u32, far: u32) -> int {
    if !edges.touches(near | far) {
        0
    } else if edges.touches(near) {
        -1
    } else {
        1
    }
}

impl ResizeSurfaceGrab {
    /// Starts a resize of a window by some of its edges. Returns the grab and the state
    /// that the window is in from now on.
    pub fn start(edges: ResizeEdge, initial_window_rect: Rectangle) -> (started: (
        ResizeSurfaceGrab,
        ResizeSurfaceState,
    ))
        ensures
            started.0 == (ResizeSurfaceGrab {
                edges,
                initial_geo: initial_window_rect,
                last_window_size: Size { w: initial_window_rect.w, h: initial_window_rect.h },
            }),
            started.1 == (ResizeSurfaceState::Resizing { edges, initial_geo: initial_window_rect }),
    {
        (
            ResizeSurfaceGrab {
                edges,
                initial_geo: initial_window_rect,
                last_window_size: Size { w: initial_window_rect.w, h: initial_window_rect.h },
            },
            ResizeSurfaceState::start(edges, initial_window_rect),
        )
    }

    /// How the pointer's way to the right counts for the width.
    pub fn horizontal_pull(&self) -> (factor: i32)
        ensures
            factor == pull(self.edges, LEFT, RIGHT),
    {
        if !self.edges.intersects(LEFT | RIGHT) {
            0
        } else if self.edges.intersects(LEFT) {
            -1
        } else {
            1
        }
    }

    /// How the pointer's way downwards counts for the height.
    pub fn vertical_pull(&self) -> (factor: i32)
        ensures
            factor == pull(self.edges, TOP, BOTTOM),
    {
        if !self.edges.intersects(TOP | BOTTOM) {
            0
        } else if self.edges.intersects(TOP) {
            -1
        } else {
            1
        }
    }

    /// The pointer has moved and asks for the size `wanted`: the size that is asked of
    /// the client is held within the client's limits, and remembered.
    pub fn motion(&mut self, wanted: Size, min_size: Size, max_size: Size) -> (asked: Size)
        ensures
            asked.w == limited(wanted.w, min_size.w, max_size.w),
            asked.h == limited(wanted.h, min_size.h, max_size.h),
            final(self).last_window_size == asked,
            final(self).edges == old(self).edges,
            final(self).initial_geo == old(self).initial_geo,
    {
        let asked = limit_size(wanted, min_size, max_size);
        self.last_window_size = asked;
        asked
    }

    /// A button has changed. Where the button that holds the grab is no longer pressed
    /// the grab ends: the state that the window is in from now on is returned, and the
    /// size that was last asked for is the last that is asked of the client.
    pub fn button(&self, pressed: &Vec<u32>) -> (ended: Option<ResizeSurfaceState>)
        ensures
            ended == if pressed@.contains(BTN_LEFT) {
                None::<ResizeSurfaceState>
            } else {
                Some(
                    ResizeSurfaceState::Finishing {
                        edges: self.edges,
                        initial_geo: self.initial_geo,
                    },
                )
            },
    {
        if grab_released(pressed) {
            Some(ResizeSurfaceState::Finishing { edges: self.edges, initial_geo: self.initial_geo })
        } else {
            None
        }
    }
}

/// The place of a window after a commit, on one axis.
pub open spec fn moved_to(place: i32, change: Option<i32>) -> i32 {
    match change {
        Some(moved) => moved,
        None => place,
    }
}

/// Where a resize moves a window on the two axes when the client commits the size
/// `committed`.
pub open spec fn resize_moves(
    resize: Option<(ResizeEdge, Rectangle)>,
    committed: Size,
) -> (Option<i32>, Option<i32>) {
    match resize {
        Some((edges, initial_geo)) => (
            if edges.touches(TOP_LEFT) && edges.touches(LEFT) {
                Some(anchored(initial_geo.x, initial_geo.w, committed.w) as i32)
            } else {
                None
            },
            if edges.touches(TOP_LEFT) && edges.touches(TOP) {
                Some(anchored(initial_geo.y, initial_geo.h, committed.h) as i32)
            } else {
                None
            },
        ),
        None => (None, None),
    }
}

/// Whether the place that a resize moves a window to is a coordinate on each axis.
pub open spec fn resize_fits(resize: Option<(ResizeEdge, Rectangle)>, committed: Size) -> bool {
    match resize {
        Some((edges, initial_geo)) => {
            &&& edges.touches(LEFT) ==> i32::MIN <= anchored(
                initial_geo.x,
                initial_geo.w,
                committed.w,
            ) <= i32::MAX
            &&& edges.touches(TOP) ==> i32::MIN <= anchored(
                initial_geo.y,
                initial_geo.h,
                committed.h,
            ) <= i32::MAX
        },
        None => true,
    }
}

/// Whether `handle_commit` may be called for a commit of the size `committed`.
pub fn commit_fits(state: &ResizeSurfaceState, committed: Size) -> (fits: bool)
    ensures
        fits == resize_fits(state.resize(), committed),
{
    match *state {
        ResizeSurfaceState::Resizing { edges, initial_geo } => commit_location_fits(
            edges,
            initial_geo,
            committed,
        ),
        ResizeSurfaceState::Finishing { edges, initial_geo } => commit_location_fits(
            edges,
            initial_geo,
            committed,
        ),
        ResizeSurfaceState::Idle => true,
    }
}

/// The client of a window at `location` commits the size `committed`. Where the window
/// is being resized by its upper or left edge it is moved so that the opposite edge
/// stays: returns the place to map it at, or `None` where it stays. A resize that was
/// finishing is over.
pub fn handle_commit(state: &mut ResizeSurfaceState, location: (i32, i32), committed: Size) -> (
    moved: Option<(i32, i32)>
)
    requires
        resize_fits(old(state).resize(), committed),
    ensures
        *final(state) == old(state).committed(),
        moved == {
            let moves = resize_moves(old(state).resize(), committed);
            if moves.0 is Some || moves.1 is Some {
                Some((moved_to(location.0, moves.0), moved_to(location.1, moves.1)))
            } else {
                None::<(i32, i32)>
            }
        },
{
    let moves = match state.commit() {
        Some((edges, initial_geo)) => commit_location(edges, initial_geo, committed),
        None => (None, None),
    };
    let x = match moves.0 {
        Some(moved) => moved,
        None => location.0,
    };
    let y = match moves.1 {
        Some(moved) => moved,
        None => location.1,
    };
    if moves.0.is_some() || moves.1.is_some() {
        Some((x, y))
    } else {
        None
    }
}

} // verus!
