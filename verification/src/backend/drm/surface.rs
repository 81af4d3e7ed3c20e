//! The output surface: one connector driven through one CRTC, its output, and the
//! buffer it has in flight.

use crate::backend::Error;
use crate::cursor;
use crate::cursor::{frame_at, CursorElement, CursorImageStatus, CursorRender};
use crate::output::{unknown, unknown_text, Output, OutputId, PhysicalSize, Point, Transform};
use crate::state::Space;
use drm::control::connector::Interface;
use vstd::prelude::*;
use vstd::string::StringExecFns;

use super::mode::{select_mode, selected_mode_index, ModeInfo};

verus! {

/// Ten bits for each colour, two for alpha; red in the lowest bits.
pub const FORMAT_ABGR2101010: u32 = 0x3033_4241;

/// Ten bits for each colour, two for alpha; blue in the lowest bits.
pub const FORMAT_ARGB2101010: u32 = 0x3033_5241;

/// Eight bits for each colour and for alpha; red in the lowest bits.
pub const FORMAT_ABGR8888: u32 = 0x3432_4241;

/// Eight bits for each colour and for alpha; blue in the lowest bits.
pub const FORMAT_ARGB8888: u32 = 0x3432_5241;

/// What the driver reports of a connector.
#[derive(Clone, Debug, PartialEq, Eq)]
pub struct ConnectorInfo {
    pub handle: u32,
    /// The kind of connector, as the driver numbers them.
    pub interface: u32,
    /// The number of the connector among those of its kind.
    pub interface_id: u32,
    /// The size of the monitor, if known.
    pub size: Option<PhysicalSize>,
    pub modes: Vec<ModeInfo>,
}

/// What a monitor tells of itself.
#[derive(Clone, Debug, PartialEq, Eq)]
pub struct EdidInfo {
    pub manufacturer: String,
    pub model: String,
}

/// What came of the steps that set an output surface up.
#[derive(Debug, PartialEq, Eq)]
pub struct SurfaceProbe {
    /// Whether the driver gave a mode-setting surface for the connector, CRTC and mode.
    pub drm_surface: bool,
    /// Whether the buffer queue was allocated.
    pub gbm_surface: bool,
    /// What the monitor tells of itself, if that could be read.
    pub edid: Option<EdidInfo>,
    /// The pointer, or why it could not be loaded.
    pub cursor: Result<CursorElement, cursor::Error>,
}

/// Where an output surface stands with its next buffer.
#[derive(Clone, Copy, Debug, PartialEq, Eq, Structural)]
pub enum FrameState {
    /// No buffer is asked for and none is in flight.
    Idle,
    /// A buffer was asked for and none was submitted; the next trigger tries again.
    Requested,
    /// A buffer was submitted and the display has not taken it yet.
    InFlight,
}

/// Something to draw, and the output that mainly shows it.
#[derive(Clone, Copy, Debug, PartialEq, Eq, Structural)]
pub struct Element {
    pub id: u64,
    pub primary_output: Option<OutputId>,
}

/// What goes into one frame, and who hears of it.
#[derive(Clone, Debug, PartialEq, Eq)]
pub struct Frame {
    /// What is drawn for the pointer.
    pub cursor: CursorRender,
    /// The elements that are told that the frame was presented, in their order.
    pub frame_callbacks: Vec<u64>,
}

/// What a frame is made from.
#[derive(Clone, Debug, PartialEq, Eq)]
pub struct FrameInput {
    /// Whether the allocator had a free buffer.
    pub acquired: bool,
    /// What the composition has to draw, in its order.
    pub elements: Vec<Element>,
    /// Where the pointer is, if there is one.
    pub pointer: Option<Point>,
    /// The time of the clock, in milliseconds.
    pub clock_millis: u64,
    /// What the seat wants the pointer to show.
    pub cursor_status: CursorImageStatus,
}

/// What happens to an output surface between two frames.
#[derive(Clone, Copy, Debug, PartialEq, Eq, Structural)]
pub enum SurfaceStep {
    /// A frame is produced; `acquired` says whether the allocator had a free buffer.
    Produce { acquired: bool },
    /// The display has taken the submitted buffer.
    Complete,
    /// A submitted buffer was refused.
    Refuse,
    /// All buffers are dropped.
    Reset,
}

/// The formats in the order in which they are preferred: deep colour first.
pub open spec fn preferred_formats() -> Seq<u32> {
    seq![FORMAT_ABGR2101010, FORMAT_ARGB2101010, FORMAT_ABGR8888, FORMAT_ARGB8888]
}

/// Those of the preferred formats that the renderer supports, in the order of
/// preference.
pub open spec fn supported_among(preference: Seq<u32>, renderer: Seq<u32>) -> Seq<u32>
    decreases preference.len(),
{
    if preference.len() == 0 {
        Seq::empty()
    } else {
        let before = supported_among(preference.drop_last(), renderer);
        if renderer.contains(preference.last()) {
            before.push(preference.last())
        } else {
            before
        }
    }
}

/// The name that the `drm` crate gives the connector kind with this number:
/// `Interface::as_str` of `Interface::from`.
pub uninterp spec fn connector_interface_name(interface: u32) -> Seq<char>;

/// Calls `Interface::from` and `Interface::as_str` of the `drm` crate: the name of the
/// connector kind with this number, which depends on the number alone.
#[verifier::external_body]
fn interface_name(interface: u32) -> (name: String)
    ensures
        name@ == connector_interface_name(interface),
{
    Interface::from(interface).as_str().to_string()
}

/// The decimal digit with the given value.
pub open spec fn digit(value: nat) -> Seq<char>
    recommends
        value < 10,
{
    if value == 0 {
        "0"@
    } else if value == 1 {
        "1"@
    } else if value == 2 {
        "2"@
    } else if value == 3 {
        "3"@
    } else if value == 4 {
        "4"@
    } else if value == 5 {
        "5"@
    } else if value == 6 {
        "6"@
    } else if value == 7 {
        "7"@
    } else if value == 8 {
        "8"@
    } else {
        "9"@
    }
}

/// The number written in decimal digits, without leading zeros.
pub open spec fn decimal(number: nat) -> Seq<char>
    decreases number,
{
    if number < 10 {
        digit(number)
    } else {
        decimal(number / 10) + digit(number % 10)
    }
}

/// The name of an output: the name of the connector's kind, a hyphen, and the number of
/// the connector among those of its kind.
pub open spec fn output_name(interface: u32, interface_id: u32) -> Seq<char> {
    connector_interface_name(interface) + "-"@ + decimal(interface_id as nat)
}

/// The elements that mainly show on the output, by their identifiers and in their order.
pub open spec fn callbacks_for(elements: Seq<Element>, output: OutputId) -> Seq<u64>
    decreases elements.len(),
{
    if elements.len() == 0 {
        Seq::empty()
    } else {
        let before = callbacks_for(elements.drop_last(), output);
        if elements.last().primary_output == Some(output) {
            before.push(elements.last().id)
        } else {
            before
        }
    }
}

/// The pointer after a frame that shows it: moved on to the time of the clock, unless
/// the clock shows zero, and showing what the seat asks for.
pub open spec fn cursor_after(
    cursor: CursorElement,
    clock_millis: u64,
    status: CursorImageStatus,
) -> CursorElement {
    CursorElement {
        current_delay: if clock_millis > 0 {
            (cursor.total_delay % clock_millis) as u64
        } else {
            cursor.current_delay
        },
        status,
        ..cursor
    }
}

/// What is drawn for the pointer: nothing while it is hidden or the theme's animation
/// has no frame, the current frame of that animation for the theme's icon, the client's
/// surface otherwise.
pub open spec fn cursor_render(cursor: CursorElement) -> CursorRender {
    match cursor.status {
        CursorImageStatus::Hidden => CursorRender::Nothing,
        CursorImageStatus::Default => match frame_at(cursor.default@, cursor.current_delay) {
            Some(i) => CursorRender::Frame(i as usize),
            None => CursorRender::Nothing,
        },
        CursorImageStatus::Surface => CursorRender::Surface,
    }
}

/// Where an output surface stands after a step.
pub open spec fn frame_after(frame: FrameState, step: SurfaceStep) -> FrameState {
    match step {
        SurfaceStep::Produce { acquired } => if frame == FrameState::InFlight {
            FrameState::InFlight
        } else if acquired {
            FrameState::InFlight
        } else {
            FrameState::Requested
        },
        SurfaceStep::Complete => if frame == FrameState::InFlight {
            FrameState::Idle
        } else {
            frame
        },
        SurfaceStep::Refuse => if frame == FrameState::InFlight {
            FrameState::Requested
        } else {
            frame
        },
        SurfaceStep::Reset => FrameState::Idle,
    }
}

/// Where an output surface stands after a run of steps.
pub open spec fn frame_after_all(frame: FrameState, steps: Seq<SurfaceStep>) -> FrameState
    decreases steps.len(),
{
    if steps.len() == 0 {
        frame
    } else {
        frame_after(frame_after_all(frame, steps.drop_last()), steps.last())
    }
}

/// The number of buffers that are submitted and not yet taken by the display.
pub open spec fn in_flight(frame: FrameState) -> nat {
    if frame == FrameState::InFlight {
        1
    } else {
        0
    }
}

/// One buffer at a time: a production that gets a buffer while none is in flight leaves
/// exactly one in flight, and however often production is triggered after that, exactly
/// one stays in flight until the display takes it, a submission is refused or the
/// buffers are reset. At no time is more than one in flight.
pub proof fn lemma_one_buffer_in_flight(frame: FrameState, steps: Seq<SurfaceStep>)
    requires
        frame != FrameState::InFlight,
        forall|i: int| 0 <= i < steps.len() ==> #[trigger] steps[i] is Produce,
    ensures
        in_flight(frame_after(frame, SurfaceStep::Produce { acquired: true })) == 1,
        in_flight(
            frame_after_all(frame_after(frame, SurfaceStep::Produce { acquired: true }), steps),
        ) == 1,
        forall|any: FrameState, others: Seq<SurfaceStep>|
            in_flight(#[trigger] frame_after_all(any, others)) <= 1,
    decreases steps.len(),
{
    if steps.len() > 0 {
        let front = steps.drop_last();
        assert(forall|i: int| 0 <= i < front.len() ==> front[i] == steps[i]);
        lemma_one_buffer_in_flight(frame, front);
        assert(steps[steps.len() - 1] is Produce);
    }
}

/// The display's taking the buffer ends the flight: after it no buffer is in flight.
pub proof fn lemma_completion_lands(frame: FrameState)
    ensures
        in_flight(frame_after(frame, SurfaceStep::Complete)) == 0,
        in_flight(frame_after(frame, SurfaceStep::Reset)) == 0,
{
}

/// One connector driven through one CRTC.
#[derive(Clone, Debug, PartialEq, Eq)]
pub struct OutputSurface {
    pub crtc: u32,
    pub connector: u32,
    /// The pixel format of the buffers.
    pub format: u32,
    pub output: Output,
    pub cursor: CursorElement,
    /// Where the surface stands with its next buffer.
    pub frame: FrameState,
}

impl OutputSurface {
    /// The output is the one on this surface's CRTC, and output and pointer are sound.
    pub open spec fn wf(&self) -> bool {
        &&& self.output.id.crtc == self.crtc
        &&& self.output.wf()
        &&& self.cursor.wf()
    }

    /// The surface of the connector on the CRTC of the device, newly set up: driven with
    /// the selected mode, which is also the preferred one, in the first supported
    /// format, named by the connector, with make and model of the monitor or `Unknown`
    /// for both, not turned, at scale one, and with no buffer asked for yet.
    pub open spec fn built_from(
        &self,
        node: u64,
        crtc: u32,
        connector: ConnectorInfo,
        formats: Seq<u32>,
        edid: Option<EdidInfo>,
        cursor: CursorElement,
    ) -> bool {
        let mode = connector.modes@[selected_mode_index(connector.modes@)].mode();
        &&& self.crtc == crtc
        &&& self.connector == connector.handle
        &&& self.format == formats[0]
        &&& self.output.id == (OutputId { device: node, crtc })
        &&& self.output.name@ == output_name(connector.interface, connector.interface_id)
        &&& self.output.physical_size == match connector.size {
            Some(size) => size,
            None => PhysicalSize { width: 0, height: 0 },
        }
        &&& self.output.make@ == match edid {
            Some(info) => info.manufacturer@,
            None => unknown(),
        }
        &&& self.output.model@ == match edid {
            Some(info) => info.model@,
            None => unknown(),
        }
        &&& self.output.current_mode == mode
        &&& self.output.preferred_mode == mode
        &&& self.output.transform == Transform::Normal
        &&& self.output.scale == 1
        &&& self.cursor == cursor
        &&& self.frame == FrameState::Idle
    }

    /// What setting the surface up ends with: the failure of the first step that failed,
    /// or nothing. The buffer queue also fails where the renderer supports none of the
    /// formats.
    pub open spec fn failure_of(probe: SurfaceProbe, formats: Seq<u32>) -> Option<Error> {
        if !probe.drm_surface {
            Some(Error::DrmSurfaceCreateFailure)
        } else if !probe.gbm_surface || formats.len() == 0 {
            Some(Error::GbmSurfaceCreateFailure)
        } else {
            match probe.cursor {
                Err(error) => Some(Error::CursorLoadError(error)),
                Ok(_) => None,
            }
        }
    }

    /// Sets up the surface of a connector on a CRTC of the device `node`, from what the
    /// driver reports of the connector, the formats in the order of preference, those
    /// that the renderer supports, and what came of the steps that talk to the driver.
    pub fn new(
        node: u64,
        crtc: u32,
        connector: &ConnectorInfo,
        color_formats: &Vec<u32>,
        renderer_formats: &Vec<u32>,
        probe: SurfaceProbe,
    ) -> (result: Result<OutputSurface, Error>)
        requires
            connector.modes@.len() > 0,
            probe.cursor matches Ok(cursor) ==> cursor.wf(),
        ensures
            match result {
                Ok(surface) => OutputSurface::failure_of(
                    probe,
                    supported_among(color_formats@, renderer_formats@),
                ) is None && surface.built_from(
                    node,
                    crtc,
                    *connector,
                    supported_among(color_formats@, renderer_formats@),
                    probe.edid,
                    probe.cursor->Ok_0,
                ) && surface.wf(),
                Err(error) => OutputSurface::failure_of(
                    probe,
                    supported_among(color_formats@, renderer_formats@),
                ) == Some(error),
            },
    {
        let index = select_mode(&connector.modes).unwrap();
        let mode = connector.modes[index].output_mode();
        if !probe.drm_surface {
            return Err(Error::DrmSurfaceCreateFailure);
        }
        let formats = negotiate_formats(color_formats, renderer_formats);
        if !probe.gbm_surface || formats.len() == 0 {
            return Err(Error::GbmSurfaceCreateFailure);
        }
        let name = name_output(connector.interface, connector.interface_id);
        let (make, model) = make_and_model(probe.edid);
        let physical_size = match connector.size {
            Some(size) => size,
            None => PhysicalSize { width: 0, height: 0 },
        };
        let output = Output {
            id: OutputId { device: node, crtc },
            name,
            physical_size,
            make,
            model,
            current_mode: mode,
            preferred_mode: mode,
            transform: Transform::Normal,
            scale: 1,
        };
        match probe.cursor {
            Err(error) => Err(Error::CursorLoadError(error)),
            Ok(cursor) => Ok(
                OutputSurface {
                    crtc,
                    connector: connector.handle,
                    format: formats[0],
                    output,
                    cursor,
                    frame: FrameState::Idle,
                },
            ),
        }
    }

    /// Whether the pointer is part of a frame of this surface: there is a pointer and it
    /// lies in the region that the layout gives this surface's output.
    pub open spec fn shows_pointer(&self, space: Space, pointer: Option<Point>) -> bool {
        pointer matches Some(point) && space.output_has_point(self.output.id, point)
    }

    /// This surface is `before` after a frame was to be produced from `input`: where it
    /// stands with its buffer follows the step, and if the frame was produced with the
    /// pointer in it, the pointer has moved on; all else is as before.
    pub open spec fn after_frame(
        &self,
        before: OutputSurface,
        space: Space,
        input: FrameInput,
    ) -> bool {
        &&& self.crtc == before.crtc
        &&& self.connector == before.connector
        &&& self.format == before.format
        &&& self.output == before.output
        &&& self.frame == frame_after(
            before.frame,
            SurfaceStep::Produce { acquired: input.acquired },
        )
        &&& self.cursor == if before.frame != FrameState::InFlight && input.acquired
            && before.shows_pointer(space, input.pointer) {
            cursor_after(before.cursor, input.clock_millis, input.cursor_status)
        } else {
            before.cursor
        }
    }

    /// The frame is the one that this surface, which was `before`, made from `input`: the
    /// pointer is drawn if it is part of the frame, and the elements that mainly show on
    /// this output hear of it.
    pub open spec fn made_frame(
        &self,
        frame: Frame,
        before: OutputSurface,
        space: Space,
        input: FrameInput,
    ) -> bool {
        &&& frame.cursor == if before.shows_pointer(space, input.pointer) {
            cursor_render(self.cursor)
        } else {
            CursorRender::Nothing
        }
        &&& frame.frame_callbacks@ == callbacks_for(input.elements@, before.output.id)
    }

    /// Produces the next frame from `input`, as `next_buffer` does.
    pub fn produce(&mut self, space: &Space, input: &FrameInput) -> (result: Result<Frame, Error>)
        requires
            old(self).wf(),
        ensures
            final(self).wf(),
            final(self).after_frame(*old(self), *space, *input),
            result is Ok <==> old(self).frame != FrameState::InFlight && input.acquired,
            result matches Err(error) ==> error == Error::BufferAcquireFailure,
            result matches Ok(frame) ==> final(self).made_frame(frame, *old(self), *space, *input),
    {
        self.next_buffer(
            input.acquired,
            space,
            &input.elements,
            input.pointer,
            input.clock_millis,
            input.cursor_status,
        )
    }

    /// Whether a buffer may be asked for: none is in flight.
    pub fn can_request(&self) -> (free: bool)
        ensures
            free == (self.frame != FrameState::InFlight),
    {
        match self.frame {
            FrameState::InFlight => false,
            _ => true,
        }
    }

    /// Produces the next frame. `acquired` says whether the allocator had a free buffer.
    ///
    /// While a buffer is in flight, and where the allocator has none, no frame is
    /// produced; in the second case the surface remembers that one was asked for. Else
    /// the frame is on its way to the display: the pointer is part of it if it lies in
    /// the region of this output, and each element that mainly shows on this output is
    /// told of the frame.
    pub fn next_buffer(
        &mut self,
        acquired: bool,
        space: &Space,
        elements: &Vec<Element>,
        pointer: Option<Point>,
        clock_millis: u64,
        cursor_status: CursorImageStatus,
    ) -> (result: Result<Frame, Error>)
        requires
            old(self).wf(),
        ensures
            final(self).wf(),
            final(self).crtc == old(self).crtc,
            final(self).connector == old(self).connector,
            final(self).format == old(self).format,
            final(self).output == old(self).output,
            final(self).frame == frame_after(old(self).frame, SurfaceStep::Produce { acquired }),
            result is Ok <==> old(self).frame != FrameState::InFlight && acquired,
            result matches Err(error) ==> error == Error::BufferAcquireFailure,
            result is Err ==> final(self).cursor == old(self).cursor,
            result matches Ok(frame) ==> {
                let shown = pointer matches Some(point) && space.output_has_point(
                    old(self).output.id,
                    point,
                );
                &&& final(self).cursor == if shown {
                    cursor_after(old(self).cursor, clock_millis, cursor_status)
                } else {
                    old(self).cursor
                }
                &&& frame.cursor == if shown {
                    cursor_render(final(self).cursor)
                } else {
                    CursorRender::Nothing
                }
                &&& frame.frame_callbacks@ == callbacks_for(elements@, old(self).output.id)
            },
    {
        if !self.can_request() {
            return Err(Error::BufferAcquireFailure);
        }
        if !acquired {
            self.frame = FrameState::Requested;
            return Err(Error::BufferAcquireFailure);
        }
        let shown = match pointer {
            Some(point) => space.output_under(self.output.id, point),
            None => false,
        };
        let mut render = CursorRender::Nothing;
        if shown {
            if clock_millis > 0 {
                self.cursor.update_animation_status(clock_millis);
            }
            self.cursor.set_status(cursor_status);
            render = draw_cursor(&self.cursor);
        }
        let frame_callbacks = collect_callbacks(elements, self.output.id);
        self.frame = FrameState::InFlight;
        Ok(Frame { cursor: render, frame_callbacks })
    }

    /// The display has taken the submitted buffer: none is in flight any more. Returns
    /// whether one was.
    pub fn frame_submitted(&mut self) -> (was_in_flight: bool)
        ensures
            was_in_flight == (old(self).frame == FrameState::InFlight),
            final(self).frame == frame_after(old(self).frame, SurfaceStep::Complete),
            final(self).crtc == old(self).crtc,
            final(self).connector == old(self).connector,
            final(self).format == old(self).format,
            final(self).output == old(self).output,
            final(self).cursor == old(self).cursor,
    {
        match self.frame {
            FrameState::InFlight => {
                self.frame = FrameState::Idle;
                true
            },
            _ => false,
        }
    }

    /// The submitted buffer was refused: none is in flight, and the next trigger tries
    /// again.
    pub fn submission_failed(&mut self)
        ensures
            final(self).frame == frame_after(old(self).frame, SurfaceStep::Refuse),
            final(self).crtc == old(self).crtc,
            final(self).connector == old(self).connector,
            final(self).format == old(self).format,
            final(self).output == old(self).output,
            final(self).cursor == old(self).cursor,
    {
        match self.frame {
            FrameState::InFlight => {
                self.frame = FrameState::Requested;
            },
            _ => {},
        }
    }

    /// Drops all buffers: none is asked for and none is in flight.
    pub fn reset_buffers(&mut self)
        ensures
            final(self).frame == frame_after(old(self).frame, SurfaceStep::Reset),
            final(self).frame == FrameState::Idle,
            final(self).crtc == old(self).crtc,
            final(self).connector == old(self).connector,
            final(self).format == old(self).format,
            final(self).output == old(self).output,
            final(self).cursor == old(self).cursor,
    {
        self.frame = FrameState::Idle;
    }
}

/// The formats in the order in which they are preferred.
pub fn supported_formats() -> (formats: Vec<u32>)
    ensures
        formats@ == preferred_formats(),
{
    let mut formats: Vec<u32> = Vec::new();
    formats.push(FORMAT_ABGR2101010);
    formats.push(FORMAT_ARGB2101010);
    formats.push(FORMAT_ABGR8888);
    formats.push(FORMAT_ARGB8888);
    proof {
        assert(formats@ =~= preferred_formats());
    }
    formats
}

/// Those of the preferred formats that the renderer supports, in the order of
/// preference; a buffer takes the first of them.
pub fn negotiate_formats(color_formats: &Vec<u32>, renderer_formats: &Vec<u32>) -> (formats: Vec<
    u32,
>)
    ensures
        formats@ == supported_among(color_formats@, renderer_formats@),
{
    let mut formats: Vec<u32> = Vec::new();
    let mut i: usize = 0;
    while i < color_formats.len()
        invariant
            0 <= i <= color_formats@.len(),
            formats@ == supported_among(color_formats@.take(i as int), renderer_formats@),
        decreases color_formats@.len() - i,
    {
        proof {
            assert(color_formats@.take(i + 1).drop_last() =~= color_formats@.take(i as int));
        }
        if crate::state::has_crtc(renderer_formats, color_formats[i]) {
            formats.push(color_formats[i]);
        }
        i += 1;
    }
    proof {
        assert(color_formats@.take(i as int) =~= color_formats@);
    }
    formats
}

/// Appends one decimal digit.
fn push_digit(text: &mut String, value: u32)
    requires
        value < 10,
    ensures
        final(text)@ == old(text)@ + digit(value as nat),
{
    if value == 0 {
        text.append("0");
    } else if value == 1 {
        text.append("1");
    } else if value == 2 {
        text.append("2");
    } else if value == 3 {
        text.append("3");
    } else if value == 4 {
        text.append("4");
    } else if value == 5 {
        text.append("5");
    } else if value == 6 {
        text.append("6");
    } else if value == 7 {
        text.append("7");
    } else if value == 8 {
        text.append("8");
    } else {
        text.append("9");
    }
}

/// Appends a number in decimal digits.
pub fn push_decimal(text: &mut String, number: u32)
    ensures
        final(text)@ == old(text)@ + decimal(number as nat),
    decreases number,
{
    if number >= 10 {
        push_decimal(text, number / 10);
    }
    push_digit(text, number % 10);
    proof {
        if number >= 10 {
            assert(old(text)@ + decimal((number / 10) as nat) + digit((number % 10) as nat)
                =~= old(text)@ + (decimal((number / 10) as nat) + digit((number % 10) as nat)));
        }
    }
}

/// The name of the output on a connector.
pub fn name_output(interface: u32, interface_id: u32) -> (name: String)
    ensures
        name@ == output_name(interface, interface_id),
{
    let mut name = interface_name(interface);
    name.append("-");
    push_decimal(&mut name, interface_id);
    name
}

/// Make and model of the monitor: what it tells of itself, or `Unknown` for both where
/// that could not be read.
pub fn make_and_model(edid: Option<EdidInfo>) -> (texts: (String, String))
    ensures
        texts.0@ == match edid {
            Some(info) => info.manufacturer@,
            None => unknown(),
        },
        texts.1@ == match edid {
            Some(info) => info.model@,
            None => unknown(),
        },
{
    match edid {
        Some(info) => (info.manufacturer, info.model),
        None => (unknown_text(), unknown_text()),
    }
}

/// What is drawn for the pointer.
pub fn draw_cursor(cursor: &CursorElement) -> (render: CursorRender)
    requires
        cursor.wf(),
    ensures
        render == cursor_render(*cursor),
{
    match cursor.status {
        CursorImageStatus::Hidden => CursorRender::Nothing,
        CursorImageStatus::Default => match cursor.current_frame() {
            Some(i) => CursorRender::Frame(i),
            None => CursorRender::Nothing,
        },
        CursorImageStatus::Surface => CursorRender::Surface,
    }
}

/// The elements that mainly show on the output.
pub fn collect_callbacks(elements: &Vec<Element>, output: OutputId) -> (ids: Vec<u64>)
    ensures
        ids@ == callbacks_for(elements@, output),
{
    let mut ids: Vec<u64> = Vec::new();
    let mut i: usize = 0;
    while i < elements.len()
        invariant
            0 <= i <= elements@.len(),
            ids@ == callbacks_for(elements@.take(i as int), output),
        decreases elements@.len() - i,
    {
        proof {
            assert(elements@.take(i + 1).drop_last() =~= elements@.take(i as int));
        }
        let element = elements[i];
        match element.primary_output {
            Some(shown) => {
                if shown == output {
                    ids.push(element.id);
                }
            },
            None => {},
        }
        i += 1;
    }
    proof {
        assert(elements@.take(i as int) =~= elements@);
    }
    ids
}

} // verus!
