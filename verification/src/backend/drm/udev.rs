//! Hot-plug: devices that come, change and go.

use crate::backend::Error;
use crate::output::OutputId;
use crate::state::{kept_of, lemma_kept_maps, MappedOutput, State};
use vstd::prelude::*;

use super::{
    device_at, device_map, has_surface, lemma_changed_map, lemma_device_at, lemma_device_map,
    lemma_pushed_map, lemma_removed_map, others_unchanged, with_node, without_node, DrmData,
    SessionState,
};
use super::device::{crtcs_of, lemma_retained, retained, still_driven, Device};
use super::registry::{
    lemma_has_surface_pushed, lemma_has_surface_removed, lemma_shrink_keeps_layout,
};
use super::scanner::{drivers, scan_events, ConnectorReading, ScanEvent};
use super::surface::OutputSurface;

verus! {

/// What came of opening a device that was added.
#[derive(Clone, Copy, Debug, PartialEq, Eq, Structural)]
pub struct DeviceOpening {
    /// Whether the session opened the device node.
    pub opened: bool,
    /// Whether the driver gave a mode-setting handle.
    pub drm: bool,
    /// Whether the driver gave a buffer allocator.
    pub gbm: bool,
    /// The render node of the device, where it has one of its own.
    pub render_node: Option<u64>,
}

/// A hot-plug notification. `node` is the device node that the notification's device
/// identifier stands for, `None` where it stands for no display device.
#[derive(Clone, Debug, PartialEq, Eq)]
pub enum UdevEvent {
    /// A device came: what opening it gave, and what its connectors show.
    Added { node: Option<u64>, opening: DeviceOpening, snapshot: Vec<ConnectorReading> },
    /// Something changed on a device: what its connectors show now.
    Changed { node: Option<u64>, snapshot: Vec<ConnectorReading> },
    /// A device went.
    Removed { node: Option<u64> },
}

impl DeviceOpening {
    /// The failure of the first step that failed, if one did.
    pub open spec fn failure(self) -> Option<Error> {
        if !self.opened {
            Some(Error::DeviceOpenFailure)
        } else if !self.drm {
            Some(Error::ModesetInitFailure)
        } else if !self.gbm {
            Some(Error::AllocatorInitFailure)
        } else {
            None
        }
    }

    /// The node that renders for the device: its render node, or the device itself
    /// where it has none of its own.
    pub open spec fn renderer(self, node: u64) -> u64 {
        match self.render_node {
            Some(render_node) => render_node,
            None => node,
        }
    }

    /// The failure of the first step that failed, if one did.
    pub fn check(&self) -> (result: Result<(), Error>)
        ensures
            match result {
                Ok(_) => self.failure() is None,
                Err(error) => self.failure() == Some(error),
            },
    {
        if !self.opened {
            Err(Error::DeviceOpenFailure)
        } else if !self.drm {
            Err(Error::ModesetInitFailure)
        } else if !self.gbm {
            Err(Error::AllocatorInitFailure)
        } else {
            Ok(())
        }
    }
}

/// The devices without the one with this node.
pub open spec fn devices_without(devices: Seq<Device>, node: u64) -> Seq<Device> {
    match device_at(devices, node) {
        Some(i) => devices.remove(i),
        None => devices,
    }
}

/// The render nodes after the device with this node has gone: without its render node,
/// unless that is the primary GPU, which stays.
pub open spec fn nodes_without(data: DrmData, node: u64) -> Seq<u64> {
    match device_at(data.devices@, node) {
        Some(i) => if data.devices@[i].render_node != data.primary_gpu {
            without_node(data.gpu_manager.nodes@, data.devices@[i].render_node)
        } else {
            data.gpu_manager.nodes@
        },
        None => data.gpu_manager.nodes@,
    }
}

/// The layout after the device with this node has gone: without its outputs.
pub open spec fn outputs_without(state: State<DrmData>, node: u64) -> Seq<MappedOutput> {
    match device_at(state.backend_data.devices@, node) {
        Some(_) => kept_of(state.space.outputs@, node, Seq::empty()),
        None => state.space.outputs@,
    }
}

/// A device that was just added and scanned: it has no surface yet, and remembers what
/// its connectors showed.
pub open spec fn fresh_device(
    device: Device,
    node: u64,
    render_node: u64,
    active: bool,
    snapshot: Seq<ConnectorReading>,
) -> bool {
    &&& device.node == node
    &&& device.render_node == render_node
    &&& device.active == active
    &&& device.surfaces@ == Seq::<OutputSurface>::empty()
    &&& device.drm_scanner.assignments@ == drivers(snapshot)
}

/// The outputs of all devices but one.
pub open spec fn of_other_devices(node: u64) -> Set<OutputId> {
    Set::new(|id: OutputId| id.device != node)
}

/// The outputs of all devices but one, and the outputs of that one on the CRTCs on
/// which it has a surface.
pub open spec fn still_shown(node: u64, surfaces: Map<u32, OutputSurface>) -> Set<OutputId> {
    Set::new(|id: OutputId| id.device != node || surfaces.dom().contains(id.crtc))
}

/// The CRTCs of the surfaces are those for which the map of the surfaces has one.
pub proof fn lemma_crtcs_shown(node: u64, surfaces: Seq<OutputSurface>, crtcs: Seq<u32>)
    requires
        crtcs == crtcs_of(surfaces),
    ensures
        Set::new(|id: OutputId| id.device != node || crtcs.contains(id.crtc)) == still_shown(
            node,
            super::device::surface_map(surfaces),
        ),
{
    assert forall|crtc: u32|
        crtcs.contains(crtc) <==> #[trigger] super::device::surface_map(surfaces).dom().contains(
            crtc,
        ) by {
        super::device::lemma_surface_at(surfaces, crtc);
        if crtcs.contains(crtc) {
            let j = choose|j: int| 0 <= j < crtcs.len() && crtcs[j] == crtc;
            assert(surfaces[j].crtc == crtc);
        }
        if super::device::surface_at(surfaces, crtc) is Some {
            let j = super::device::surface_at(surfaces, crtc).unwrap();
            assert(crtcs[j] == crtc);
        }
    }
    assert(Set::new(|id: OutputId| id.device != node || crtcs.contains(id.crtc)) =~= still_shown(
        node,
        super::device::surface_map(surfaces),
    ));
}

/// In a sound state the layout holds no output of a device that is not known.
pub proof fn lemma_none_shown(state: State<DrmData>, node: u64)
    requires
        state.drm_wf(),
        device_at(state.backend_data.devices@, node) is None,
    ensures
        state.space@.restrict(of_other_devices(node)) == state.space@,
{
    lemma_device_at(state.backend_data.devices@, node);
    assert forall|id: OutputId| #[trigger] state.space@.dom().contains(id) implies id.device
        != node by {
        assert(state.space.maps(id));
        assert(has_surface(state.backend_data.devices@, id));
    }
    assert(state.space@.restrict(of_other_devices(node)) =~= state.space@);
}

impl State<DrmData> {
    /// Handles a hot-plug notification. One for what is no display device does nothing.
    /// The others are handled as `on_device_added`, `on_device_changed` and
    /// `on_device_removed` say.
    pub fn on_udev_event(&mut self, event: UdevEvent) -> (result: Result<Vec<ScanEvent>, Error>)
        requires
            old(self).drm_wf(),
        ensures
            final(self).drm_wf(),
            final(self).backend_data.session == old(self).backend_data.session,
            final(self).backend_data.primary_gpu == old(self).backend_data.primary_gpu,
            match event {
                UdevEvent::Added { node: Some(node), opening, snapshot } => match result {
                    Ok(events) => opening.failure() is None && final(self).added(
                        *old(self),
                        node,
                        opening,
                        snapshot@,
                    ) && events@ == scan_events(Seq::empty(), drivers(snapshot@)),
                    Err(error) => opening.failure() == Some(error) && *final(self) == *old(self),
                },
                UdevEvent::Changed { node: Some(node), snapshot } => match result {
                    Ok(events) => final(self).changed(*old(self), node, snapshot@, events@),
                    Err(_) => false,
                },
                UdevEvent::Removed { node: Some(node) } => match result {
                    Ok(events) => final(self).removed(*old(self), node) && events@.len() == 0,
                    Err(_) => false,
                },
                _ => *final(self) == *old(self) && (result matches Ok(events) && events@.len()
                    == 0),
            },
    {
        match event {
            UdevEvent::Added { node: Some(node), opening, snapshot } => self.on_device_added(
                node,
                opening,
                &snapshot,
            ),
            UdevEvent::Changed { node: Some(node), snapshot } => Ok(
                self.on_device_changed(node, &snapshot),
            ),
            UdevEvent::Removed { node: Some(node) } => {
                self.on_device_removed(node);
                Ok(Vec::new())
            },
            _ => Ok(Vec::new()),
        }
    }

    /// The state after the device `node` was added to `before` and scanned: in place of
    /// any device of that node there is a fresh one behind the others, its render node is
    /// registered, and the outputs of a device that it replaced have left the layout.
    pub open spec fn added(
        &self,
        before: State<DrmData>,
        node: u64,
        opening: DeviceOpening,
        snapshot: Seq<ConnectorReading>,
    ) -> bool {
        let rest = devices_without(before.backend_data.devices@, node);
        &&& self.backend_data.devices@.len() == rest.len() + 1
        &&& self.backend_data.devices@.drop_last() == rest
        &&& fresh_device(
            self.backend_data.devices@.last(),
            node,
            opening.renderer(node),
            before.backend_data.session == SessionState::Active,
            snapshot,
        )
        &&& self.backend_data.gpu_manager.nodes@ == with_node(
            nodes_without(before.backend_data, node),
            opening.renderer(node),
        )
        &&& self.space.outputs@ == outputs_without(before, node)
        &&& self.backend_data.session == before.backend_data.session
        &&& self.backend_data.primary_gpu == before.backend_data.primary_gpu
    }

    /// The state after the connectors of the device `node` of `before` were scanned: a
    /// device that is not known changes nothing and yields no event; a known device
    /// remembers the reading, keeps the surfaces whose connector still drives their
    /// CRTC, and the outputs of the others have left the layout.
    pub open spec fn changed(
        &self,
        before: State<DrmData>,
        node: u64,
        snapshot: Seq<ConnectorReading>,
        events: Seq<ScanEvent>,
    ) -> bool {
        match device_at(before.backend_data.devices@, node) {
            None => *self == before && events.len() == 0,
            Some(i) => {
                let earlier = before.backend_data.devices@[i];
                let now = self.backend_data.devices@[i];
                &&& others_unchanged(before.backend_data.devices@, self.backend_data.devices@, i)
                &&& now.node == node
                &&& now.render_node == earlier.render_node
                &&& now.active == earlier.active
                &&& now.drm_scanner.assignments@ == drivers(snapshot)
                &&& now.surfaces@ == retained(earlier.surfaces@, drivers(snapshot))
                &&& events == scan_events(earlier.drm_scanner.assignments@, drivers(snapshot))
                &&& self.space.outputs@ == kept_of(
                    before.space.outputs@,
                    node,
                    crtcs_of(now.surfaces@),
                )
                &&& self.backend_data.gpu_manager == before.backend_data.gpu_manager
                &&& self.backend_data.session == before.backend_data.session
                &&& self.backend_data.primary_gpu == before.backend_data.primary_gpu
            },
        }
    }

    /// The state after the device `node` of `before` has gone: the device and all its
    /// surfaces are dropped, its outputs have left the layout, and its render node is
    /// unregistered unless it is the primary GPU. A device that is not known changes
    /// nothing.
    pub open spec fn removed(&self, before: State<DrmData>, node: u64) -> bool {
        &&& self.backend_data.devices@ == devices_without(before.backend_data.devices@, node)
        &&& self.backend_data.gpu_manager.nodes@ == nodes_without(before.backend_data, node)
        &&& self.space.outputs@ == outputs_without(before, node)
        &&& self.backend_data.session == before.backend_data.session
        &&& self.backend_data.primary_gpu == before.backend_data.primary_gpu
        &&& device_at(self.backend_data.devices@, node) is None
        &&& device_at(before.backend_data.devices@, node) is None ==> *self == before
    }

    /// Takes a device in. `opening` says what came of opening it: where the session did
    /// not open the node, or the driver gave no mode-setting handle or no allocator, the
    /// device is left out and nothing changes. Else the device is registered with the
    /// node that renders for it, in place of any device of the same node, and its
    /// connectors are scanned; the events are those of a first scan.
    pub fn on_device_added(
        &mut self,
        node: u64,
        opening: DeviceOpening,
        snapshot: &Vec<ConnectorReading>,
    ) -> (result: Result<Vec<ScanEvent>, Error>)
        requires
            old(self).drm_wf(),
        ensures
            final(self).drm_wf(),
            match result {
                Ok(events) => opening.failure() is None && final(self).added(
                    *old(self),
                    node,
                    opening,
                    snapshot@,
                ) && events@ == scan_events(Seq::empty(), drivers(snapshot@)),
                Err(error) => opening.failure() == Some(error) && *final(self) == *old(self),
            },
            result is Ok ==> final(self).backend_data@ == old(self).backend_data@.insert(
                node,
                final(self).backend_data.devices@.last(),
            ),
            result is Ok ==> final(self).space@ == old(self).space@.restrict(of_other_devices(node)),
    {
        match opening.check() {
            Err(error) => {
                return Err(error);
            },
            Ok(_) => {},
        }
        self.on_device_removed(node);
        let render_node = match opening.render_node {
            Some(render_node) => render_node,
            None => node,
        };
        self.backend_data.gpu_manager.add_node(render_node);
        let mut device = Device::new(node, render_node, self.backend_data.is_active());
        let events = device.scan_connectors(snapshot);
        let ghost rest = self.backend_data.devices@;
        self.backend_data.devices.push(device);
        proof {
            let now = self.backend_data.devices@;
            assert(now.drop_last() =~= rest);
            lemma_pushed_map(rest, now.last());
            assert(now =~= rest.push(now.last()));
            assert(device_map(now) =~= old(self).backend_data@.insert(node, now.last()));
            lemma_device_at(rest, node);
            assert forall|i: int, j: int| 0 <= i < j < now.len() implies (#[trigger] now[i]).node
                != (#[trigger] now[j]).node by {
                if j < rest.len() {
                    assert(now[i] == rest[i] && now[j] == rest[j]);
                } else {
                    assert(now[i] == rest[i]);
                }
            }
            assert forall|i: int| 0 <= i < now.len() implies (#[trigger] now[i]).wf() && now[i].active
                == (self.backend_data.session == SessionState::Active) by {
                if i < rest.len() {
                    assert(now[i] == rest[i]);
                }
            }
            assert forall|id: OutputId| #[trigger]
                self.space.maps(id) <==> has_surface(now, id) by {
                lemma_has_surface_pushed(rest, now.last(), id);
                assert(now =~= rest.push(now.last()));
            }
        }
        Ok(events)
    }

    /// Scans the connectors of a device again. Does nothing for a device that is not
    /// known. Else the device remembers the reading, each surface whose connector no
    /// longer drives its CRTC is dropped and its output leaves the layout, and the
    /// changes are returned: for each `Connected` among them a surface is to be set up.
    pub fn on_device_changed(&mut self, node: u64, snapshot: &Vec<ConnectorReading>) -> (events:
        Vec<ScanEvent>)
        requires
            old(self).drm_wf(),
        ensures
            final(self).drm_wf(),
            final(self).changed(*old(self), node, snapshot@, events@),
            final(self).backend_data@.dom() == old(self).backend_data@.dom(),
            old(self).backend_data@.dom().contains(node) ==> {
                &&& final(self).backend_data@ == old(self).backend_data@.insert(
                    node,
                    final(self).backend_data@[node],
                )
                &&& final(self).backend_data@[node]@ == still_driven(
                    old(self).backend_data@[node]@,
                    drivers(snapshot@),
                )
                &&& final(self).space@ == old(self).space@.restrict(
                    still_shown(node, final(self).backend_data@[node]@),
                )
            },
    {
        let place = self.backend_data.find_device(node);
        match place {
            None => Vec::new(),
            Some(i) => {
                let events = self.backend_data.devices[i].scan_connectors(snapshot);
                let crtcs = self.backend_data.devices[i].crtcs();
                self.space.retain_of_device(node, &crtcs);
                proof {
                    let before = old(self).backend_data.devices@;
                    let now = self.backend_data.devices@;
                    assert(others_unchanged(before, now, i as int));
                    lemma_retained(before[i as int].surfaces@, drivers(snapshot@));
                    lemma_shrink_keeps_layout(*old(self), *self, i as int);
                    lemma_changed_map(before, now, i as int);
                    lemma_device_map(before, i as int);
                    lemma_crtcs_shown(node, now[i as int].surfaces@, crtcs@);
                    assert(device_map(now).dom() =~= device_map(before).dom());
                    assert forall|k: int| 0 <= k < now.len() implies (#[trigger] now[k]).wf()
                        && now[k].active == (self.backend_data.session == SessionState::Active) by {
                        if k != i {
                            assert(now[k] == before[k]);
                        }
                        assert(before[k].wf());
                    }
                }
                events
            },
        }
    }

    /// Lets a device go. Does nothing for a device that is not known. Else the device is
    /// dropped with all its surfaces, their outputs leave the layout, and its render
    /// node is unregistered, unless it is the primary GPU.
    pub fn on_device_removed(&mut self, node: u64)
        requires
            old(self).drm_wf(),
        ensures
            final(self).drm_wf(),
            final(self).removed(*old(self), node),
            final(self).backend_data@ == old(self).backend_data@.remove(node),
            final(self).space@ == old(self).space@.restrict(of_other_devices(node)),
    {
        let place = self.backend_data.find_device(node);
        match place {
            None => {
                proof {
                    assert(old(self).backend_data@.remove(node) =~= old(self).backend_data@);
                    lemma_none_shown(*old(self), node);
                }
            },
            Some(i) => {
                let render_node = self.backend_data.devices[i].render_node;
                if render_node != self.backend_data.primary_gpu {
                    self.backend_data.gpu_manager.remove_node(render_node);
                }
                self.backend_data.devices.remove(i);
                let none: Vec<u32> = Vec::new();
                self.space.retain_of_device(node, &none);
                proof {
                    let before = old(self).backend_data.devices@;
                    let now = self.backend_data.devices@;
                    assert(now == before.remove(i as int));
                    assert(none@ =~= Seq::<u32>::empty());
                    lemma_removed_map(before, i as int);
                    assert(Set::new(|id: OutputId| id.device != node || none@.contains(id.crtc))
                        =~= of_other_devices(node));
                    lemma_has_surface_removed(before, i as int, OutputId { device: node, crtc: 0 });
                    assert forall|k: int| 0 <= k < now.len() implies (#[trigger] now[k]).wf()
                        && now[k].active == (self.backend_data.session == SessionState::Active) by {
                        let a = if k < i {
                            k
                        } else {
                            k + 1
                        };
                        assert(now[k] == before[a]);
                        assert(before[a].wf());
                    }
                    assert forall|id: OutputId| #[trigger]
                        self.space.maps(id) <==> has_surface(now, id) by {
                        lemma_kept_maps(old(self).space.outputs@, node, none@, id);
                        lemma_has_surface_removed(before, i as int, id);
                        assert(old(self).space.maps(id) <==> has_surface(before, id));
                    }
                    lemma_device_at(now, node);
                    lemma_device_at(before, node);
                    assert forall|k: int| 0 <= k < now.len() implies (#[trigger] now[k]).node
                        != node by {
                        let a = if k < i {
                            k
                        } else {
                            k + 1
                        };
                        assert(now[k] == before[a]);
                        if a < i {
                            assert(before[a].node != before[i as int].node);
                        } else {
                            assert(before[i as int].node != before[a].node);
                        }
                    }
                }
            },
        }
    }
}

} // verus!
