//! What the driver tells: the display has taken a buffer, a connector came or went.

use crate::backend::Error;
use crate::output::OutputId;
use crate::state::{kept_of, right_edge, with_output, MappedOutput, State};
use vstd::prelude::*;

use super::{
    device_at, device_map, lemma_changed_map, lemma_device_map, others_unchanged, renderer_for,
    select_renderer, DrmData, RendererChoice, SessionState,
};
use super::device::{
    crtcs_of, landed, lemma_surface_at, lemma_surface_map, lemma_without_surface, surface_at,
    unplugged, without_crtc, without_surface,
};
use super::registry::{lemma_grow_keeps_layout, lemma_same_crtcs, lemma_shrink_keeps_layout};
use super::scanner::assigned;
use super::surface::{
    in_flight, preferred_formats, supported_among, supported_formats, ConnectorInfo, Frame,
    FrameInput, FrameState, OutputSurface, SurfaceProbe,
};
use super::udev::{lemma_crtcs_shown, still_shown};

verus! {

/// What a device tells.
#[derive(Clone, Copy, Debug, PartialEq, Eq, Structural)]
pub enum DrmEvent {
    /// The display has taken the buffer that was submitted for this CRTC.
    VBlank(u32),
    /// The device reports an error.
    Error,
}

/// What came of a notification that the display has taken a buffer.
#[derive(Clone, Debug, PartialEq, Eq)]
pub enum VblankOutcome {
    /// Nothing was done: the notification is none of a taken buffer, its device or its
    /// surface is gone, or the session is paused.
    Dropped,
    /// The next frame is on its way; it is to be rendered with `renderer`.
    Produced { renderer: RendererChoice, frame: Frame },
    /// No frame was produced; the next trigger tries again.
    Failed { renderer: RendererChoice, error: Error },
}

/// A connector that newly drives a monitor, with all that its output surface is set up
/// from.
#[derive(Debug, PartialEq, Eq)]
pub struct Connection {
    pub crtc: u32,
    pub connector: ConnectorInfo,
    /// The formats that the renderer of the device supports.
    pub renderer_formats: Vec<u32>,
    /// What came of the steps that talk to the driver.
    pub probe: SurfaceProbe,
    /// What the first frame is made from.
    pub first_frame: FrameInput,
}

/// A change of a connector.
#[derive(Debug, PartialEq, Eq)]
pub enum DrmScanEvent {
    Connected(Connection),
    Disconnected { connector: u32, crtc: u32 },
}

/// What came of a change of a connector.
#[derive(Clone, Debug, PartialEq, Eq)]
pub enum ConnectorOutcome {
    /// Nothing was done: the device is not known, the change is out of date, or there
    /// was no surface to drop.
    Ignored,
    /// The surface of the connector was dropped.
    Removed,
    /// A surface was set up. Its first frame, if one was produced, is to be rendered
    /// with `renderer`.
    Created { renderer: RendererChoice, frame: Option<Frame> },
}

impl State<DrmData> {
    /// The device and the surface that a notification of a taken buffer is for, by
    /// their places; `None` where it is for none, or the session is paused.
    pub open spec fn vblank_target(&self, node: u64, event: DrmEvent) -> Option<(int, int)> {
        match event {
            DrmEvent::VBlank(crtc) => match device_at(self.backend_data.devices@, node) {
                Some(i) => match surface_at(self.backend_data.devices@[i].surfaces@, crtc) {
                    Some(j) => if self.backend_data.session == SessionState::Active {
                        Some((i, j))
                    } else {
                        None
                    },
                    None => None,
                },
                None => None,
            },
            DrmEvent::Error => None,
        }
    }

    /// Whether a frame can be shown on the CRTC of the device: the session is active, the
    /// device is known, and it has a surface on the CRTC.
    pub open spec fn shows(&self, node: u64, crtc: u32) -> bool {
        &&& self.backend_data.session == SessionState::Active
        &&& self.backend_data@.dom().contains(node)
        &&& self.backend_data@[node]@.dom().contains(crtc)
    }

    /// This state is `before` after the surface at place `surface` of the device at place
    /// `device` has landed its buffer and was to produce a frame from `input`; all else
    /// is as before.
    pub open spec fn presented(
        &self,
        before: State<DrmData>,
        device: int,
        surface: int,
        input: FrameInput,
    ) -> bool {
        let earlier = before.backend_data.devices@[device];
        let now = self.backend_data.devices@[device];
        &&& self.space == before.space
        &&& self.backend_data.session == before.backend_data.session
        &&& self.backend_data.primary_gpu == before.backend_data.primary_gpu
        &&& self.backend_data.gpu_manager == before.backend_data.gpu_manager
        &&& others_unchanged(before.backend_data.devices@, self.backend_data.devices@, device)
        &&& now.node == earlier.node
        &&& now.render_node == earlier.render_node
        &&& now.active == earlier.active
        &&& now.drm_scanner == earlier.drm_scanner
        &&& now.surfaces@.len() == earlier.surfaces@.len()
        &&& forall|k: int|
            0 <= k < earlier.surfaces@.len() && k != surface ==> #[trigger] now.surfaces@[k]
                == earlier.surfaces@[k]
        &&& now.surfaces@[surface].after_frame(
            landed(earlier.surfaces@[surface]),
            before.space,
            input,
        )
    }

    /// Handles what a device tells. That the display has taken the buffer of a CRTC
    /// makes the surface of that CRTC produce its next frame: the buffer counts as
    /// landed, the renderer is picked by the device's render node, and the frame is made
    /// from `input`. A notification for a device or a surface that is gone is dropped
    /// without a trace, and so is any while the session is paused.
    pub fn on_drm_event(&mut self, node: u64, event: DrmEvent, input: &FrameInput) -> (outcome:
        VblankOutcome)
        requires
            old(self).drm_wf(),
        ensures
            final(self).drm_wf(),
            match old(self).vblank_target(node, event) {
                None => outcome is Dropped && *final(self) == *old(self),
                Some((i, j)) => {
                    let choice = renderer_for(
                        old(self).backend_data.primary_gpu,
                        old(self).backend_data.devices@[i].render_node,
                    );
                    &&& 0 <= i < old(self).backend_data.devices@.len()
                    &&& 0 <= j < old(self).backend_data.devices@[i].surfaces@.len()
                    &&& final(self).presented(*old(self), i, j, *input)
                    &&& match outcome {
                        VblankOutcome::Produced { renderer, frame } => input.acquired && renderer
                            == choice && final(self).backend_data.devices@[i].surfaces@[j].made_frame(
                            frame,
                            landed(old(self).backend_data.devices@[i].surfaces@[j]),
                            old(self).space,
                            *input,
                        ),
                        VblankOutcome::Failed { renderer, error } => !input.acquired && renderer
                            == choice && error == Error::BufferAcquireFailure,
                        VblankOutcome::Dropped => false,
                    }
                },
            },
            outcome is Dropped <==> !(event matches DrmEvent::VBlank(crtc) && old(
                self,
            ).shows(node, crtc)),
            event matches DrmEvent::VBlank(crtc) ==> old(self).shows(node, crtc) ==> {
                &&& final(self).shows(node, crtc)
                &&& final(self).backend_data@ == old(self).backend_data@.insert(
                    node,
                    final(self).backend_data@[node],
                )
                &&& final(self).backend_data@[node]@ == old(self).backend_data@[node]@.insert(
                    crtc,
                    final(self).backend_data@[node]@[crtc],
                )
                &&& final(self).backend_data@[node]@[crtc].after_frame(
                    landed(old(self).backend_data@[node]@[crtc]),
                    old(self).space,
                    *input,
                )
            },
    {
        let crtc = match event {
            DrmEvent::VBlank(crtc) => crtc,
            DrmEvent::Error => {
                return VblankOutcome::Dropped;
            },
        };
        let place = self.backend_data.find_device(node);
        let i = match place {
            Some(i) => i,
            None => {
                return VblankOutcome::Dropped;
            },
        };
        let j = match self.backend_data.devices[i].find_surface(crtc) {
            Some(j) => j,
            None => {
                return VblankOutcome::Dropped;
            },
        };
        if !self.backend_data.is_active() {
            return VblankOutcome::Dropped;
        }
        let renderer = select_renderer(
            self.backend_data.primary_gpu,
            self.backend_data.devices[i].render_node,
        );
        let result = self.backend_data.devices[i].present(j, &self.space, input);
        proof {
            let before = old(self).backend_data.devices@;
            let now = self.backend_data.devices@;
            assert(others_unchanged(before, now, i as int));
            lemma_same_crtcs(before, now, i as int);
            lemma_changed_map(before, now, i as int);
            lemma_device_map(before, i as int);
            lemma_device_map(now, i as int);
            assert(before[i as int].wf());
            lemma_surface_map(before[i as int].surfaces@, j as int);
            assert(now[i as int]@.dom().contains(crtc));
            assert forall|k: int| 0 <= k < now.len() implies (#[trigger] now[k]).wf() && now[k].active
                == (self.backend_data.session == SessionState::Active) by {
                if k != i {
                    assert(now[k] == before[k]);
                }
                assert(before[k].wf());
            }
            assert forall|id: OutputId| #[trigger]
                self.space.maps(id) <==> super::has_surface(now, id) by {
                assert(old(self).space.maps(id) <==> super::has_surface(before, id));
            }
        }
        match result {
            Ok(frame) => VblankOutcome::Produced { renderer, frame },
            Err(error) => VblankOutcome::Failed { renderer, error },
        }
    }

    /// The device that a change of a connector is for, by its place: `None` where the
    /// device is not known, or where the change is a connector's coming that the last
    /// scan of the device does not show.
    pub open spec fn connector_target(&self, node: u64, event: DrmScanEvent) -> Option<int> {
        match device_at(self.backend_data.devices@, node) {
            Some(i) => match event {
                DrmScanEvent::Connected(connection) => if assigned(
                    self.backend_data.devices@[i].drm_scanner.assignments@,
                    connection.connector.handle,
                ) == Some(connection.crtc) {
                    Some(i)
                } else {
                    None
                },
                DrmScanEvent::Disconnected { .. } => Some(i),
            },
            None => None,
        }
    }

    /// This state is `before` after the device at `place` dropped the surface of the
    /// connector on the CRTC, and its output left the layout; all else is as before.
    pub open spec fn disconnected(
        &self,
        before: State<DrmData>,
        place: int,
        connector: u32,
        crtc: u32,
    ) -> bool {
        let earlier = before.backend_data.devices@[place];
        let now = self.backend_data.devices@[place];
        &&& self.backend_data.session == before.backend_data.session
        &&& self.backend_data.primary_gpu == before.backend_data.primary_gpu
        &&& self.backend_data.gpu_manager == before.backend_data.gpu_manager
        &&& others_unchanged(before.backend_data.devices@, self.backend_data.devices@, place)
        &&& now.node == earlier.node
        &&& now.render_node == earlier.render_node
        &&& now.active == earlier.active
        &&& now.drm_scanner == earlier.drm_scanner
        &&& now.surfaces@ == without_surface(earlier.surfaces@, connector, crtc)
        &&& self.space.outputs@ == kept_of(
            before.space.outputs@,
            earlier.node,
            crtcs_of(now.surfaces@),
        )
    }

    /// This state is `before` after the device at `place` took the surface in, in place
    /// of any on the same CRTC, and the layout took its output in, immediately to the
    /// right of all that were mapped; all else is as before.
    pub open spec fn connected(
        &self,
        before: State<DrmData>,
        place: int,
        surface: OutputSurface,
    ) -> bool {
        let earlier = before.backend_data.devices@[place];
        let now = self.backend_data.devices@[place];
        &&& self.backend_data.session == before.backend_data.session
        &&& self.backend_data.primary_gpu == before.backend_data.primary_gpu
        &&& self.backend_data.gpu_manager == before.backend_data.gpu_manager
        &&& others_unchanged(before.backend_data.devices@, self.backend_data.devices@, place)
        &&& now.node == earlier.node
        &&& now.render_node == earlier.render_node
        &&& now.active == earlier.active
        &&& now.drm_scanner == earlier.drm_scanner
        &&& now.surfaces@ == without_crtc(earlier.surfaces@, surface.crtc).push(surface)
        &&& self.space.outputs@ == with_output(
            before.space.outputs@,
            MappedOutput {
                id: surface.output.id,
                x: right_edge(before.space.outputs@) as i32,
                y: 0,
                width: surface.output.logical_size().0 as i32,
                height: surface.output.logical_size().1 as i32,
            },
        )
    }

    /// The surface is the one set up for the connection on the device at `place` of
    /// `before`, after its first frame: set up as `OutputSurface::built_from` says, and
    /// then, while the session is active, gone on as `OutputSurface::after_frame` says.
    pub open spec fn first_shown(
        before: State<DrmData>,
        place: int,
        connection: Connection,
        surface: OutputSurface,
    ) -> bool {
        let formats = supported_among(preferred_formats(), connection.renderer_formats@);
        let built = OutputSurface {
            frame: FrameState::Idle,
            cursor: connection.probe.cursor->Ok_0,
            ..surface
        };
        &&& built.built_from(
            before.backend_data.devices@[place].node,
            connection.crtc,
            connection.connector,
            formats,
            connection.probe.edid,
            connection.probe.cursor->Ok_0,
        )
        &&& if before.backend_data.session == SessionState::Active {
            surface.after_frame(built, before.space, connection.first_frame)
        } else {
            surface == built
        }
    }

    /// Handles a change of a connector of a device.
    ///
    /// A connector that came gets an output surface, from the formats in the order of
    /// preference and what the connection holds. Where setting it up fails, the failure
    /// is returned and nothing changes: the connector is not presented, the others are.
    /// Else the first frame is produced, unless the session is paused, the device takes
    /// the surface in, and the layout takes its output in, immediately to the right of
    /// all that were mapped.
    ///
    /// A connector that went loses its surface, and the layout its output; that there was
    /// none is no error.
    pub fn on_drm_connector_event(&mut self, node: u64, event: DrmScanEvent) -> (result: Result<
        ConnectorOutcome,
        Error,
    >)
        requires
            old(self).drm_wf(),
            event matches DrmScanEvent::Connected(connection) ==> connection.connector.modes@.len()
                > 0 && (connection.probe.cursor matches Ok(cursor) ==> cursor.wf()),
        ensures
            final(self).drm_wf(),
            match old(self).connector_target(node, event) {
                None => *final(self) == *old(self) && (result matches Ok(
                    ConnectorOutcome::Ignored,
                )),
                Some(i) => match event {
                    DrmScanEvent::Disconnected { connector, crtc } => {
                        &&& final(self).disconnected(*old(self), i, connector, crtc)
                        &&& match result {
                            Ok(ConnectorOutcome::Removed) => without_surface(
                                old(self).backend_data.devices@[i].surfaces@,
                                connector,
                                crtc,
                            ).len() < old(self).backend_data.devices@[i].surfaces@.len(),
                            Ok(ConnectorOutcome::Ignored) => without_surface(
                                old(self).backend_data.devices@[i].surfaces@,
                                connector,
                                crtc,
                            ).len() == old(self).backend_data.devices@[i].surfaces@.len(),
                            _ => false,
                        }
                    },
                    DrmScanEvent::Connected(connection) => {
                        let failure = OutputSurface::failure_of(
                            connection.probe,
                            supported_among(preferred_formats(), connection.renderer_formats@),
                        );
                        match result {
                            Err(error) => failure == Some(error) && *final(self) == *old(self),
                            Ok(ConnectorOutcome::Created { renderer, frame }) => {
                                let surface = final(self).backend_data.devices@[i].surfaces@.last();
                                &&& failure is None
                                &&& final(self).backend_data.devices@[i].surfaces@.len() > 0
                                &&& State::<DrmData>::first_shown(*old(self), i, connection, surface)
                                &&& final(self).connected(*old(self), i, surface)
                                &&& renderer == RendererChoice::Direct(
                                    old(self).backend_data.devices@[i].render_node,
                                )
                                &&& frame is Some <==> old(self).backend_data.session
                                    == SessionState::Active && connection.first_frame.acquired
                                &&& frame matches Some(made) ==> surface.made_frame(
                                    made,
                                    OutputSurface {
                                        frame: FrameState::Idle,
                                        cursor: connection.probe.cursor->Ok_0,
                                        ..surface
                                    },
                                    old(self).space,
                                    connection.first_frame,
                                )
                            },
                            Ok(_) => false,
                        }
                    },
                },
            },
            final(self).backend_data@.dom() == old(self).backend_data@.dom(),
            old(self).backend_data@.dom().contains(node) ==> match event {
                DrmScanEvent::Disconnected { connector, crtc } => {
                    &&& final(self).backend_data@[node]@ == unplugged(
                        old(self).backend_data@[node]@,
                        connector,
                        crtc,
                    )
                    &&& final(self).space@ == old(self).space@.restrict(
                        still_shown(node, final(self).backend_data@[node]@),
                    )
                    &&& (result matches Ok(ConnectorOutcome::Removed)) <==> (old(
                        self,
                    ).backend_data@[node]@.dom().contains(crtc) && old(
                        self,
                    ).backend_data@[node]@[crtc].connector == connector)
                },
                DrmScanEvent::Connected(connection) => (result matches Ok(
                    ConnectorOutcome::Created { .. },
                )) ==> {
                    &&& final(self).backend_data@[node]@.dom().contains(connection.crtc)
                    &&& final(self).backend_data@[node]@ == old(self).backend_data@[node]@.insert(
                        connection.crtc,
                        final(self).backend_data@[node]@[connection.crtc],
                    )
                    &&& final(self).space@.dom() == old(self).space@.dom().insert(
                        OutputId { device: node, crtc: connection.crtc },
                    )
                },
            },
    {
        let place = self.backend_data.find_device(node);
        let i = match place {
            Some(i) => i,
            None => {
                return Ok(ConnectorOutcome::Ignored);
            },
        };
        proof {
            lemma_device_map(old(self).backend_data.devices@, i as int);
            assert(old(self).backend_data.devices@[i as int].wf());
        }
        match event {
            DrmScanEvent::Disconnected { connector, crtc } => {
                let removed = self.backend_data.devices[i].remove_surface(connector, crtc);
                let crtcs = self.backend_data.devices[i].crtcs();
                self.space.retain_of_device(node, &crtcs);
                proof {
                    let before = old(self).backend_data.devices@;
                    let now = self.backend_data.devices@;
                    assert(others_unchanged(before, now, i as int));
                    lemma_without_surface(before[i as int].surfaces@, connector, crtc);
                    lemma_shrink_keeps_layout(*old(self), *self, i as int);
                    lemma_changed_map(before, now, i as int);
                    lemma_crtcs_shown(node, now[i as int].surfaces@, crtcs@);
                    assert(device_map(now).dom() =~= device_map(before).dom());
                    assert forall|k: int| 0 <= k < now.len() implies (#[trigger] now[k]).wf()
                        && now[k].active == (self.backend_data.session == SessionState::Active) by {
                        if k != i {
                            assert(now[k] == before[k]);
                        }
                        assert(before[k].wf());
                    }
                }
                if removed {
                    Ok(ConnectorOutcome::Removed)
                } else {
                    Ok(ConnectorOutcome::Ignored)
                }
            },
            DrmScanEvent::Connected(connection) => {
                let current = self.backend_data.devices[i].drm_scanner.crtc_for_connector(
                    connection.connector.handle,
                );
                if current != Some(connection.crtc) {
                    return Ok(ConnectorOutcome::Ignored);
                }
                let color_formats = supported_formats();
                let built = OutputSurface::new(
                    node,
                    connection.crtc,
                    &connection.connector,
                    &color_formats,
                    &connection.renderer_formats,
                    connection.probe,
                );
                let mut surface = match built {
                    Ok(surface) => surface,
                    Err(error) => {
                        return Err(error);
                    },
                };
                let ghost fresh = surface;
                let renderer = RendererChoice::Direct(self.backend_data.devices[i].render_node);
                let mut frame: Option<Frame> = None;
                if self.backend_data.is_active() {
                    match surface.produce(&self.space, &connection.first_frame) {
                        Ok(made) => {
                            frame = Some(made);
                        },
                        Err(_) => {},
                    }
                }
                let ghost shown = surface;
                self.map_output_on_the_right(&surface.output);
                self.backend_data.devices[i].insert_surface(surface);
                proof {
                    let before = old(self).backend_data.devices@;
                    let now = self.backend_data.devices@;
                    assert(others_unchanged(before, now, i as int));
                    let entry = MappedOutput {
                        id: shown.output.id,
                        x: right_edge(old(self).space.outputs@) as i32,
                        y: 0,
                        width: shown.output.logical_size().0 as i32,
                        height: shown.output.logical_size().1 as i32,
                    };
                    lemma_grow_keeps_layout(*old(self), *self, i as int, shown, entry);
                    lemma_changed_map(before, now, i as int);
                    assert(device_map(now).dom() =~= device_map(before).dom());
                    assert(now[i as int]@[connection.crtc] == shown);
                    assert(self.space@.dom() =~= old(self).space@.dom().insert(
                        OutputId { device: node, crtc: connection.crtc },
                    ));
                    assert forall|k: int| 0 <= k < now.len() implies (#[trigger] now[k]).wf()
                        && now[k].active == (self.backend_data.session == SessionState::Active) by {
                        if k != i {
                            assert(now[k] == before[k]);
                        }
                        assert(before[k].wf());
                    }
                    assert(now[i as int].surfaces@.last() == shown);
                    assert((OutputSurface {
                        frame: FrameState::Idle,
                        cursor: connection.probe.cursor->Ok_0,
                        ..shown
                    }) == fresh);
                }
                Ok(ConnectorOutcome::Created { renderer, frame })
            },
        }
    }
}

/// A frame that is produced leaves its surface with exactly one buffer in flight: after
/// the display has taken the buffer of a surface and the allocator gave the next one,
/// that surface has one in flight, and every other surface has what it had.
pub proof fn lemma_produced_frame_in_flight(
    before: State<DrmData>,
    after: State<DrmData>,
    device: int,
    surface: int,
    input: FrameInput,
)
    requires
        0 <= device < before.backend_data.devices@.len(),
        0 <= surface < before.backend_data.devices@[device].surfaces@.len(),
        after.presented(before, device, surface, input),
        input.acquired,
    ensures
        in_flight(after.backend_data.devices@[device].surfaces@[surface].frame) == 1,
        forall|i: int, j: int|
            0 <= i < before.backend_data.devices@.len() && 0 <= j
                < before.backend_data.devices@[i].surfaces@.len() && !(i == device && j
                == surface) ==> (#[trigger] after.backend_data.devices@[i].surfaces@[j]).frame
                == before.backend_data.devices@[i].surfaces@[j].frame,
{
    assert forall|i: int, j: int|
        0 <= i < before.backend_data.devices@.len() && 0 <= j
            < before.backend_data.devices@[i].surfaces@.len() && !(i == device && j
            == surface) implies (#[trigger] after.backend_data.devices@[i].surfaces@[j]).frame
        == before.backend_data.devices@[i].surfaces@[j].frame by {
        if i != device {
            assert(after.backend_data.devices@[i] == before.backend_data.devices@[i]);
        } else {
            assert(after.backend_data.devices@[i].surfaces@[j]
                == before.backend_data.devices@[i].surfaces@[j]);
        }
    }
}

/// A notification for a surface that is gone does nothing: where the device has no
/// surface on the CRTC, the notification has no target.
pub proof fn lemma_stale_notification_dropped(state: State<DrmData>, node: u64, crtc: u32)
    requires
        match device_at(state.backend_data.devices@, node) {
            Some(i) => forall|j: int|
                0 <= j < state.backend_data.devices@[i].surfaces@.len() ==> (
                #[trigger] state.backend_data.devices@[i].surfaces@[j]).crtc != crtc,
            None => true,
        },
    ensures
        state.vblank_target(node, DrmEvent::VBlank(crtc)) is None,
{
    match device_at(state.backend_data.devices@, node) {
        Some(i) => {
            lemma_surface_at(state.backend_data.devices@[i].surfaces@, crtc);
        },
        None => {},
    }
}

/// When a connector has gone, its CRTC has no surface left: after the surface of a
/// connector on a CRTC is dropped from surfaces that are each on a CRTC of their own,
/// none of the rest is on that CRTC.
pub proof fn lemma_disconnected_leaves_none(
    surfaces: Seq<OutputSurface>,
    connector: u32,
    crtc: u32,
)
    requires
        super::device::distinct_crtcs(surfaces),
        without_surface(surfaces, connector, crtc).len() < surfaces.len(),
    ensures
        forall|j: int|
            0 <= j < without_surface(surfaces, connector, crtc).len() ==> (
            #[trigger] without_surface(surfaces, connector, crtc)[j]).crtc != crtc,
{
    let rest = without_surface(surfaces, connector, crtc);
    lemma_without_surface(surfaces, connector, crtc);
    lemma_dropped_one(surfaces, connector, crtc);
    let gone = choose|k: int|
        0 <= k < surfaces.len() && (#[trigger] surfaces[k]).crtc == crtc && surfaces[k].connector
            == connector;
    assert forall|j: int| 0 <= j < rest.len() implies (#[trigger] rest[j]).crtc != crtc by {
        assert(rest.contains(rest[j]));
        assert(surfaces.contains(rest[j]));
        let k = choose|k: int| 0 <= k < surfaces.len() && surfaces[k] == rest[j];
        if k < gone {
            assert(surfaces[k].crtc != surfaces[gone].crtc);
        } else if gone < k {
            assert(surfaces[gone].crtc != surfaces[k].crtc);
        }
    }
}

/// Where dropping the surface of a connector on a CRTC leaves fewer surfaces, one of
/// them was that surface.
proof fn lemma_dropped_one(surfaces: Seq<OutputSurface>, connector: u32, crtc: u32)
    requires
        without_surface(surfaces, connector, crtc).len() < surfaces.len(),
    ensures
        exists|k: int|
            0 <= k < surfaces.len() && (#[trigger] surfaces[k]).crtc == crtc
                && surfaces[k].connector == connector,
    decreases surfaces.len(),
{
    if surfaces.len() > 0 {
        let front = surfaces.drop_last();
        if surfaces.last().crtc == crtc && surfaces.last().connector == connector {
            assert(surfaces[surfaces.len() - 1].crtc == crtc);
        } else {
            lemma_dropped_one(front, connector, crtc);
            let k = choose|k: int|
                0 <= k < front.len() && (#[trigger] front[k]).crtc == crtc && front[k].connector
                    == connector;
            assert(surfaces[k] == front[k]);
        }
    }
}

} // verus!
