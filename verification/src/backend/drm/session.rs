//! The session: what a pause and a resume do to the devices and their surfaces.

use crate::output::OutputId;
use crate::state::State;
use vstd::prelude::*;

use super::{device_at, distinct_nodes, has_surface, lemma_device_at, DrmData, SessionState};
use super::device::{all_reset, crtcs_of, lemma_surface_at, surface_at, Device};
use super::handlers::DrmEvent;
use super::surface::{frame_after, FrameState, OutputSurface, SurfaceStep};

verus! {

/// What the session tells.
#[derive(Clone, Copy, Debug, PartialEq, Eq, Structural)]
pub enum SessionEvent {
    /// Another session takes the seat.
    PauseSession,
    /// The seat is back.
    ActivateSession,
}

/// The outputs that one device drives, in the order of its surfaces.
pub open spec fn outputs_of(device: Device) -> Seq<OutputId> {
    Seq::new(
        device.surfaces@.len(),
        |j: int| OutputId { device: device.node, crtc: device.surfaces@[j].crtc },
    )
}

/// The outputs that the devices drive, device by device.
pub open spec fn driven_outputs(devices: Seq<Device>) -> Seq<OutputId>
    decreases devices.len(),
{
    if devices.len() == 0 {
        Seq::empty()
    } else {
        driven_outputs(devices.drop_last()) + outputs_of(devices.last())
    }
}

/// Each device is as it was, with its mode-setting handle suspended.
pub open spec fn all_paused(before: Seq<Device>, after: Seq<Device>) -> bool {
    &&& after.len() == before.len()
    &&& forall|i: int|
        0 <= i < before.len() ==> (#[trigger] after[i]) == (Device { active: false, ..before[i] })
}

/// Each device is as it was, with its mode-setting handle live and the buffers of all
/// its surfaces dropped.
pub open spec fn all_resumed(before: Seq<Device>, after: Seq<Device>) -> bool {
    &&& after.len() == before.len()
    &&& forall|i: int|
        0 <= i < before.len() ==> {
            &&& (#[trigger] after[i]).node == before[i].node
            &&& after[i].render_node == before[i].render_node
            &&& after[i].drm_scanner == before[i].drm_scanner
            &&& after[i].active
            &&& all_reset(before[i].surfaces@, after[i].surfaces@)
        }
}

/// Where each device keeps its node and its surfaces stay on their CRTCs, the same
/// outputs are driven.
pub proof fn lemma_same_outputs(before: Seq<Device>, after: Seq<Device>)
    requires
        after.len() == before.len(),
        forall|i: int|
            0 <= i < before.len() ==> (#[trigger] after[i]).node == before[i].node && crtcs_of(
                after[i].surfaces@,
            ) == crtcs_of(before[i].surfaces@),
    ensures
        forall|id: OutputId| has_surface(after, id) <==> #[trigger] has_surface(before, id),
        distinct_nodes(before) ==> distinct_nodes(after),
        driven_outputs(after) == driven_outputs(before),
    decreases before.len(),
{
    assert forall|id: OutputId| has_surface(after, id) <==> #[trigger] has_surface(
        before,
        id,
    ) by {
        if has_surface(after, id) {
            let (i, j) = choose|i: int, j: int|
                0 <= i < after.len() && 0 <= j < after[i].surfaces@.len() && after[i].node
                    == id.device && (#[trigger] after[i].surfaces@[j]).crtc == id.crtc;
            assert(after[i].node == before[i].node);
            assert(crtcs_of(after[i].surfaces@)[j] == crtcs_of(before[i].surfaces@)[j]);
            assert(crtcs_of(after[i].surfaces@).len() == crtcs_of(before[i].surfaces@).len());
            assert(before[i].surfaces@[j].crtc == id.crtc);
        }
        if has_surface(before, id) {
            let (i, j) = choose|i: int, j: int|
                0 <= i < before.len() && 0 <= j < before[i].surfaces@.len() && before[i].node
                    == id.device && (#[trigger] before[i].surfaces@[j]).crtc == id.crtc;
            assert(after[i].node == before[i].node);
            assert(crtcs_of(after[i].surfaces@)[j] == crtcs_of(before[i].surfaces@)[j]);
            assert(crtcs_of(after[i].surfaces@).len() == crtcs_of(before[i].surfaces@).len());
            assert(after[i].surfaces@[j].crtc == id.crtc);
        }
    }
    if distinct_nodes(before) {
        assert forall|i: int, j: int| 0 <= i < j < after.len() implies (#[trigger] after[i]).node
            != (#[trigger] after[j]).node by {
            assert(before[i].node != before[j].node);
        }
    }
    if before.len() > 0 {
        let early = before.drop_last();
        let late = after.drop_last();
        assert forall|i: int| 0 <= i < early.len() implies (#[trigger] late[i]).node
            == early[i].node && crtcs_of(late[i].surfaces@) == crtcs_of(early[i].surfaces@) by {
            assert(late[i] == after[i] && early[i] == before[i]);
        }
        lemma_same_outputs(early, late);
        let a = after[after.len() - 1];
        let b = before[before.len() - 1];
        assert(a.node == b.node);
        assert(crtcs_of(a.surfaces@).len() == crtcs_of(b.surfaces@).len());
        assert(outputs_of(a) =~= outputs_of(b)) by {
            assert forall|j: int| 0 <= j < a.surfaces@.len() implies a.surfaces@[j].crtc
                == b.surfaces@[j].crtc by {
                assert(crtcs_of(a.surfaces@)[j] == crtcs_of(b.surfaces@)[j]);
            }
        }
    }
}

/// Surfaces whose buffers were dropped are on the CRTCs they were on.
pub proof fn lemma_reset_keeps_crtcs(before: Seq<OutputSurface>, after: Seq<OutputSurface>)
    requires
        all_reset(before, after),
    ensures
        crtcs_of(after) == crtcs_of(before),
{
    assert(crtcs_of(after) =~= crtcs_of(before));
}

impl State<DrmData> {
    /// This state is `before` with the session paused: every mode-setting handle is
    /// suspended, and all else, every surface among it, is as it was.
    pub open spec fn paused(&self, before: State<DrmData>) -> bool {
        &&& self.space == before.space
        &&& self.backend_data.primary_gpu == before.backend_data.primary_gpu
        &&& self.backend_data.gpu_manager == before.backend_data.gpu_manager
        &&& self.backend_data.session == SessionState::Paused
        &&& all_paused(before.backend_data.devices@, self.backend_data.devices@)
    }

    /// This state is `before` with the session resumed: every mode-setting handle is
    /// live, every surface is there with its buffers dropped, and all else is as it was.
    pub open spec fn resumed(&self, before: State<DrmData>) -> bool {
        &&& self.space == before.space
        &&& self.backend_data.primary_gpu == before.backend_data.primary_gpu
        &&& self.backend_data.gpu_manager == before.backend_data.gpu_manager
        &&& self.backend_data.session == SessionState::Active
        &&& all_resumed(before.backend_data.devices@, self.backend_data.devices@)
    }

    /// Handles what the session tells.
    ///
    /// On a pause every mode-setting handle is suspended; until the resume no frame is
    /// produced. On a resume every handle comes back to life, every surface drops its
    /// buffers, and the outputs of all surfaces are returned: for each of them a frame
    /// is to be produced, as for a buffer that the display has taken, so that the screen
    /// is painted again. `input_resumed` says whether the input devices came back; if
    /// they did not, the resume is given up and nothing changes.
    pub fn on_session_event(&mut self, event: SessionEvent, input_resumed: bool) -> (repaint: Vec<
        OutputId,
    >)
        requires
            old(self).drm_wf(),
        ensures
            final(self).drm_wf(),
            match event {
                SessionEvent::PauseSession => final(self).paused(*old(self)) && repaint@.len()
                    == 0,
                SessionEvent::ActivateSession => if input_resumed {
                    final(self).resumed(*old(self)) && repaint@ == driven_outputs(
                        final(self).backend_data.devices@,
                    )
                } else {
                    *final(self) == *old(self) && repaint@.len() == 0
                },
            },
    {
        match event {
            SessionEvent::PauseSession => {
                self.backend_data.session = SessionState::Paused;
                let mut i: usize = 0;
                while i < self.backend_data.devices.len()
                    invariant
                        0 <= i <= self.backend_data.devices@.len(),
                        self.space == old(self).space,
                        self.backend_data.primary_gpu == old(self).backend_data.primary_gpu,
                        self.backend_data.gpu_manager == old(self).backend_data.gpu_manager,
                        self.backend_data.session == SessionState::Paused,
                        self.backend_data.devices@.len() == old(self).backend_data.devices@.len(),
                        forall|k: int|
                            0 <= k < i ==> (#[trigger] self.backend_data.devices@[k]) == (Device {
                                active: false,
                                ..old(self).backend_data.devices@[k]
                            }),
                        forall|k: int|
                            i <= k < self.backend_data.devices@.len() ==> (
                            #[trigger] self.backend_data.devices@[k]) == old(
                                self,
                            ).backend_data.devices@[k],
                    decreases self.backend_data.devices@.len() - i,
                {
                    self.backend_data.devices[i].pause();
                    i += 1;
                }
                proof {
                    let before = old(self).backend_data.devices@;
                    let now = self.backend_data.devices@;
                    assert forall|k: int| 0 <= k < before.len() implies (#[trigger] now[k]).node
                        == before[k].node && crtcs_of(now[k].surfaces@) == crtcs_of(
                        before[k].surfaces@,
                    ) by {}
                    lemma_same_outputs(before, now);
                    assert forall|k: int| 0 <= k < now.len() implies (#[trigger] now[k]).wf()
                        && now[k].active == (self.backend_data.session == SessionState::Active) by {
                        assert(before[k].wf());
                    }
                    assert forall|id: OutputId| #[trigger]
                        self.space.maps(id) <==> has_surface(now, id) by {
                        assert(old(self).space.maps(id) <==> has_surface(before, id));
                    }
                }
                Vec::new()
            },
            SessionEvent::ActivateSession => {
                if !input_resumed {
                    return Vec::new();
                }
                self.backend_data.session = SessionState::Active;
                let mut i: usize = 0;
                while i < self.backend_data.devices.len()
                    invariant
                        0 <= i <= self.backend_data.devices@.len(),
                        self.space == old(self).space,
                        self.backend_data.primary_gpu == old(self).backend_data.primary_gpu,
                        self.backend_data.gpu_manager == old(self).backend_data.gpu_manager,
                        self.backend_data.session == SessionState::Active,
                        self.backend_data.devices@.len() == old(self).backend_data.devices@.len(),
                        forall|k: int|
                            0 <= k < old(self).backend_data.devices@.len() ==> (#[trigger] old(
                                self,
                            ).backend_data.devices@[k]).wf(),
                        forall|k: int|
                            0 <= k < i ==> {
                                &&& (#[trigger] self.backend_data.devices@[k]).node == old(
                                    self,
                                ).backend_data.devices@[k].node
                                &&& self.backend_data.devices@[k].render_node == old(
                                    self,
                                ).backend_data.devices@[k].render_node
                                &&& self.backend_data.devices@[k].drm_scanner == old(
                                    self,
                                ).backend_data.devices@[k].drm_scanner
                                &&& self.backend_data.devices@[k].active
                                &&& self.backend_data.devices@[k].wf()
                                &&& all_reset(
                                    old(self).backend_data.devices@[k].surfaces@,
                                    self.backend_data.devices@[k].surfaces@,
                                )
                            },
                        forall|k: int|
                            i <= k < self.backend_data.devices@.len() ==> (
                            #[trigger] self.backend_data.devices@[k]) == old(
                                self,
                            ).backend_data.devices@[k],
                    decreases self.backend_data.devices@.len() - i,
                {
                    assert(old(self).backend_data.devices@[i as int].wf());
                    self.backend_data.devices[i].activate();
                    i += 1;
                }
                proof {
                    let before = old(self).backend_data.devices@;
                    let now = self.backend_data.devices@;
                    assert forall|k: int| 0 <= k < before.len() implies (#[trigger] now[k]).node
                        == before[k].node && crtcs_of(now[k].surfaces@) == crtcs_of(
                        before[k].surfaces@,
                    ) by {
                        lemma_reset_keeps_crtcs(before[k].surfaces@, now[k].surfaces@);
                    }
                    lemma_same_outputs(before, now);
                    assert forall|id: OutputId| #[trigger]
                        self.space.maps(id) <==> has_surface(now, id) by {
                        assert(old(self).space.maps(id) <==> has_surface(before, id));
                    }
                }
                self.backend_data.driven()
            },
        }
    }
}

impl DrmData {
    /// The outputs that the devices drive, device by device.
    pub fn driven(&self) -> (outputs: Vec<OutputId>)
        ensures
            outputs@ == driven_outputs(self.devices@),
    {
        let mut outputs: Vec<OutputId> = Vec::new();
        let mut i: usize = 0;
        while i < self.devices.len()
            invariant
                0 <= i <= self.devices@.len(),
                outputs@ == driven_outputs(self.devices@.take(i as int)),
            decreases self.devices@.len() - i,
        {
            let ghost start = outputs@;
            let mut j: usize = 0;
            while j < self.devices[i].surfaces.len()
                invariant
                    0 <= i < self.devices@.len(),
                    0 <= j <= self.devices@[i as int].surfaces@.len(),
                    outputs@ == start + outputs_of(self.devices@[i as int]).take(j as int),
                decreases self.devices@[i as int].surfaces@.len() - j,
            {
                outputs.push(
                    OutputId { device: self.devices[i].node, crtc: self.devices[i].surfaces[j].crtc },
                );
                proof {
                    assert(outputs@ =~= start + outputs_of(self.devices@[i as int]).take(j + 1));
                }
                j += 1;
            }
            proof {
                assert(outputs_of(self.devices@[i as int]).take(j as int) =~= outputs_of(
                    self.devices@[i as int],
                ));
                assert(self.devices@.take(i + 1).drop_last() =~= self.devices@.take(i as int));
                assert(self.devices@.take(i + 1).last() == self.devices@[i as int]);
            }
            i += 1;
        }
        proof {
            assert(self.devices@.take(i as int) =~= self.devices@);
        }
        outputs
    }
}

/// No surface is lost across a pause and a resume. After the resume every surface that
/// was there before the pause is there, as it was but for its buffers, which are
/// dropped; the same outputs are to be painted again; and a frame that is then produced
/// for a surface with a buffer from the allocator leaves that surface with a buffer in
/// flight.
pub proof fn lemma_pause_resume_round_trip(
    start: State<DrmData>,
    paused: State<DrmData>,
    resumed: State<DrmData>,
)
    requires
        paused.paused(start),
        resumed.resumed(paused),
    ensures
        resumed.space == start.space,
        resumed.backend_data.devices@.len() == start.backend_data.devices@.len(),
        forall|i: int|
            0 <= i < start.backend_data.devices@.len() ==> {
                &&& (#[trigger] resumed.backend_data.devices@[i]).node
                    == start.backend_data.devices@[i].node
                &&& all_reset(
                    start.backend_data.devices@[i].surfaces@,
                    resumed.backend_data.devices@[i].surfaces@,
                )
            },
        driven_outputs(resumed.backend_data.devices@) == driven_outputs(
            start.backend_data.devices@,
        ),
        forall|i: int, j: int|
            0 <= i < resumed.backend_data.devices@.len() && 0 <= j
                < resumed.backend_data.devices@[i].surfaces@.len() ==> frame_after(
                frame_after(
                    (#[trigger] resumed.backend_data.devices@[i].surfaces@[j]).frame,
                    SurfaceStep::Complete,
                ),
                SurfaceStep::Produce { acquired: true },
            ) == FrameState::InFlight,
{
    let first = start.backend_data.devices@;
    let second = paused.backend_data.devices@;
    let third = resumed.backend_data.devices@;
    assert forall|i: int| 0 <= i < first.len() implies {
        &&& (#[trigger] third[i]).node == first[i].node
        &&& all_reset(first[i].surfaces@, third[i].surfaces@)
    } by {
        assert(second[i] == (Device { active: false, ..first[i] }));
        assert(third[i].node == second[i].node);
        assert(all_reset(second[i].surfaces@, third[i].surfaces@));
    }
    assert forall|i: int| 0 <= i < first.len() implies (#[trigger] third[i]).node == first[i].node
        && crtcs_of(third[i].surfaces@) == crtcs_of(first[i].surfaces@) by {
        lemma_reset_keeps_crtcs(first[i].surfaces@, third[i].surfaces@);
    }
    lemma_same_outputs(first, third);
}

/// In a sound state the notification that the display has taken the buffer of a
/// surface finds that surface, while the session is active.
pub proof fn lemma_vblank_finds_surface(state: State<DrmData>, device: int, surface: int)
    requires
        state.drm_wf(),
        state.backend_data.session == SessionState::Active,
        0 <= device < state.backend_data.devices@.len(),
        0 <= surface < state.backend_data.devices@[device].surfaces@.len(),
    ensures
        state.vblank_target(
            state.backend_data.devices@[device].node,
            DrmEvent::VBlank(state.backend_data.devices@[device].surfaces@[surface].crtc),
        ) == Some((device, surface)),
{
    let devices = state.backend_data.devices@;
    let held = devices[device];
    let crtc = held.surfaces@[surface].crtc;
    lemma_device_at(devices, held.node);
    let i = device_at(devices, held.node).unwrap();
    if i < device {
        assert(devices[i].node != devices[device].node);
    } else if device < i {
        assert(devices[device].node != devices[i].node);
    }
    assert(held.wf());
    lemma_surface_at(held.surfaces@, crtc);
    let j = surface_at(held.surfaces@, crtc).unwrap();
    if j < surface {
        assert(held.surfaces@[j].crtc != held.surfaces@[surface].crtc);
    } else if surface < j {
        assert(held.surfaces@[surface].crtc != held.surfaces@[j].crtc);
    }
}

} // verus!
