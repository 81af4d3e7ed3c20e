//! What holds of the devices and their surfaces through any run of notifications.

use crate::state::{kept_of, MappedOutput, State};
use vstd::prelude::*;

use super::{device_at, lemma_device_at, DrmData};
use super::device::{
    crtcs_of, driven, lemma_retained, lemma_without_crtc, lemma_without_surface, retained,
    without_crtc, without_surface, Device,
};
use super::scanner::{
    assigned, drivers, lemma_scan_idempotent, scan_events, Assignment, ConnectorReading, ScanEvent,
};
use super::surface::{FrameInput, OutputSurface};
use super::udev::DeviceOpening;

verus! {

/// What the state can be told.
pub enum Notification {
    /// A device came: what opening it gave, and what its connectors show.
    Added { node: u64, opening: DeviceOpening, snapshot: Seq<ConnectorReading> },
    /// Something changed on a device: what its connectors show now.
    Changed { node: u64, snapshot: Seq<ConnectorReading> },
    /// A device went.
    Removed { node: u64 },
    /// A connector of the device at `place` came, and this surface was set up for it.
    Connected { place: int, surface: OutputSurface },
    /// A connector of the device at `place` went.
    Disconnected { place: int, connector: u32, crtc: u32 },
    /// The display has taken the buffer of the surface at place `index` of the device at
    /// `place`, and the next frame was to be made from `input`.
    Taken { place: int, index: int, input: FrameInput },
    /// The session was paused.
    Paused,
    /// The session was resumed.
    Resumed,
}

/// The events of a scan of the device `node` of `before`: none for a device that is not
/// known.
pub open spec fn events_of_scan(
    before: State<DrmData>,
    node: u64,
    snapshot: Seq<ConnectorReading>,
) -> Seq<ScanEvent> {
    match device_at(before.backend_data.devices@, node) {
        Some(i) => scan_events(
            before.backend_data.devices@[i].drm_scanner.assignments@,
            drivers(snapshot),
        ),
        None => Seq::empty(),
    }
}

/// `after` is the state that the notification makes of `before`.
pub open spec fn follows(
    before: State<DrmData>,
    after: State<DrmData>,
    notification: Notification,
) -> bool {
    match notification {
        Notification::Added { node, opening, snapshot } => if opening.failure() is None {
            after.added(before, node, opening, snapshot)
        } else {
            after == before
        },
        Notification::Changed { node, snapshot } => after.changed(
            before,
            node,
            snapshot,
            events_of_scan(before, node, snapshot),
        ),
        Notification::Removed { node } => after.removed(before, node),
        Notification::Connected { place, surface } => {
            &&& 0 <= place < before.backend_data.devices@.len()
            &&& driven(surface, before.backend_data.devices@[place].drm_scanner.assignments@)
            &&& after.connected(before, place, surface)
        },
        Notification::Disconnected { place, connector, crtc } => {
            &&& 0 <= place < before.backend_data.devices@.len()
            &&& after.disconnected(before, place, connector, crtc)
        },
        Notification::Taken { place, index, input } => {
            &&& 0 <= place < before.backend_data.devices@.len()
            &&& 0 <= index < before.backend_data.devices@[place].surfaces@.len()
            &&& after.presented(before, place, index, input)
        },
        Notification::Paused => after.paused(before),
        Notification::Resumed => after.resumed(before),
    }
}

/// The states are those that a run of notifications leads through, one after the
/// other.
pub open spec fn run_of(states: Seq<State<DrmData>>, notifications: Seq<Notification>) -> bool {
    &&& states.len() == notifications.len() + 1
    &&& forall|k: int|
        0 <= k < notifications.len() ==> follows(
            #[trigger] states[k],
            states[k + 1],
            notifications[k],
        )
}

/// Every surface is that of a connector which, at the last scan of its device, drove
/// the surface's CRTC.
pub open spec fn surfaces_connected(state: State<DrmData>) -> bool {
    forall|i: int, j: int|
        0 <= i < state.backend_data.devices@.len() && 0 <= j
            < state.backend_data.devices@[i].surfaces@.len() ==> assigned(
            state.backend_data.devices@[i].drm_scanner.assignments@,
            (#[trigger] state.backend_data.devices@[i].surfaces@[j]).connector,
        ) == Some(state.backend_data.devices@[i].surfaces@[j].crtc)
}

/// A notification keeps every surface with a connected connector.
pub proof fn lemma_notification_keeps_connected(
    before: State<DrmData>,
    after: State<DrmData>,
    notification: Notification,
)
    requires
        surfaces_connected(before),
        follows(before, after, notification),
    ensures
        surfaces_connected(after),
{
    let earlier = before.backend_data.devices@;
    let later = after.backend_data.devices@;
    match notification {
        Notification::Added { node, opening, snapshot } => {
            if opening.failure() is None {
                lemma_device_at(earlier, node);
                assert forall|i: int, j: int|
                    0 <= i < later.len() && 0 <= j < later[i].surfaces@.len() implies assigned(
                    later[i].drm_scanner.assignments@,
                    (#[trigger] later[i].surfaces@[j]).connector,
                ) == Some(later[i].surfaces@[j].crtc) by {
                    let rest = later.drop_last();
                    if i < rest.len() {
                        assert(later[i] == rest[i]);
                        match device_at(earlier, node) {
                            Some(gone) => {
                                let a = if i < gone {
                                    i
                                } else {
                                    i + 1
                                };
                                assert(rest[i] == earlier[a]);
                                assert(earlier[a].surfaces@[j] == later[i].surfaces@[j]);
                            },
                            None => {
                                assert(earlier[i].surfaces@[j] == later[i].surfaces@[j]);
                            },
                        }
                    }
                }
            }
        },
        Notification::Changed { node, snapshot } => {
            lemma_device_at(earlier, node);
            match device_at(earlier, node) {
                Some(place) => {
                    lemma_retained(earlier[place].surfaces@, drivers(snapshot));
                    assert forall|i: int, j: int|
                        0 <= i < later.len() && 0 <= j < later[i].surfaces@.len() implies assigned(
                        later[i].drm_scanner.assignments@,
                        (#[trigger] later[i].surfaces@[j]).connector,
                    ) == Some(later[i].surfaces@[j].crtc) by {
                        if i == place {
                            let surface = later[i].surfaces@[j];
                            assert(retained(earlier[place].surfaces@, drivers(snapshot)).contains(
                                surface,
                            ));
                            assert(driven(surface, drivers(snapshot)));
                        } else {
                            assert(later[i] == earlier[i]);
                            assert(earlier[i].surfaces@[j] == later[i].surfaces@[j]);
                        }
                    }
                },
                None => {},
            }
        },
        Notification::Removed { node } => {
            lemma_device_at(earlier, node);
            assert forall|i: int, j: int|
                0 <= i < later.len() && 0 <= j < later[i].surfaces@.len() implies assigned(
                later[i].drm_scanner.assignments@,
                (#[trigger] later[i].surfaces@[j]).connector,
            ) == Some(later[i].surfaces@[j].crtc) by {
                match device_at(earlier, node) {
                    Some(gone) => {
                        let a = if i < gone {
                            i
                        } else {
                            i + 1
                        };
                        assert(later[i] == earlier[a]);
                        assert(earlier[a].surfaces@[j] == later[i].surfaces@[j]);
                    },
                    None => {
                        assert(earlier[i].surfaces@[j] == later[i].surfaces@[j]);
                    },
                }
            }
        },
        Notification::Connected { place, surface } => {
            let rest = without_crtc(earlier[place].surfaces@, surface.crtc);
            lemma_without_crtc(earlier[place].surfaces@, surface.crtc);
            assert forall|i: int, j: int|
                0 <= i < later.len() && 0 <= j < later[i].surfaces@.len() implies assigned(
                later[i].drm_scanner.assignments@,
                (#[trigger] later[i].surfaces@[j]).connector,
            ) == Some(later[i].surfaces@[j].crtc) by {
                if i != place {
                    assert(later[i] == earlier[i]);
                    assert(earlier[i].surfaces@[j] == later[i].surfaces@[j]);
                } else if j < rest.len() {
                    assert(later[i].surfaces@[j] == rest[j]);
                    assert(rest.contains(rest[j]));
                    let k = choose|k: int|
                        0 <= k < earlier[place].surfaces@.len() && earlier[place].surfaces@[k]
                            == rest[j];
                    assert(earlier[place].surfaces@[k] == later[i].surfaces@[j]);
                }
            }
        },
        Notification::Disconnected { place, connector, crtc } => {
            let rest = without_surface(earlier[place].surfaces@, connector, crtc);
            lemma_without_surface(earlier[place].surfaces@, connector, crtc);
            assert forall|i: int, j: int|
                0 <= i < later.len() && 0 <= j < later[i].surfaces@.len() implies assigned(
                later[i].drm_scanner.assignments@,
                (#[trigger] later[i].surfaces@[j]).connector,
            ) == Some(later[i].surfaces@[j].crtc) by {
                if i != place {
                    assert(later[i] == earlier[i]);
                    assert(earlier[i].surfaces@[j] == later[i].surfaces@[j]);
                } else {
                    assert(later[i].surfaces@[j] == rest[j]);
                    assert(rest.contains(rest[j]));
                    let k = choose|k: int|
                        0 <= k < earlier[place].surfaces@.len() && earlier[place].surfaces@[k]
                            == rest[j];
                    assert(earlier[place].surfaces@[k] == later[i].surfaces@[j]);
                }
            }
        },
        Notification::Taken { place, index, input } => {
            assert forall|i: int, j: int|
                0 <= i < later.len() && 0 <= j < later[i].surfaces@.len() implies assigned(
                later[i].drm_scanner.assignments@,
                (#[trigger] later[i].surfaces@[j]).connector,
            ) == Some(later[i].surfaces@[j].crtc) by {
                if i != place {
                    assert(later[i] == earlier[i]);
                    assert(earlier[i].surfaces@[j] == later[i].surfaces@[j]);
                } else if j != index {
                    assert(later[i].surfaces@[j] == earlier[i].surfaces@[j]);
                } else {
                    assert(earlier[i].surfaces@[j].connector == later[i].surfaces@[j].connector);
                }
            }
        },
        Notification::Paused => {
            assert forall|i: int, j: int|
                0 <= i < later.len() && 0 <= j < later[i].surfaces@.len() implies assigned(
                later[i].drm_scanner.assignments@,
                (#[trigger] later[i].surfaces@[j]).connector,
            ) == Some(later[i].surfaces@[j].crtc) by {
                assert(later[i] == (Device { active: false, ..earlier[i] }));
                assert(earlier[i].surfaces@[j] == later[i].surfaces@[j]);
            }
        },
        Notification::Resumed => {
            assert forall|i: int, j: int|
                0 <= i < later.len() && 0 <= j < later[i].surfaces@.len() implies assigned(
                later[i].drm_scanner.assignments@,
                (#[trigger] later[i].surfaces@[j]).connector,
            ) == Some(later[i].surfaces@[j].crtc) by {
                assert(later[i].drm_scanner == earlier[i].drm_scanner);
                assert(later[i].surfaces@[j].connector == earlier[i].surfaces@[j].connector);
                assert(later[i].surfaces@[j].crtc == earlier[i].surfaces@[j].crtc);
            }
        },
    }
}

/// Through any run of notifications, of devices that come, change and go among them, no
/// state holds a surface for a CRTC whose connector the last scan of its device did not
/// show as connected and driving that CRTC.
pub proof fn lemma_surfaces_stay_connected(
    states: Seq<State<DrmData>>,
    notifications: Seq<Notification>,
)
    requires
        run_of(states, notifications),
        surfaces_connected(states[0]),
    ensures
        forall|k: int| 0 <= k < states.len() ==> surfaces_connected(#[trigger] states[k]),
    decreases notifications.len(),
{
    if notifications.len() > 0 {
        let front = states.drop_last();
        let told = notifications.drop_last();
        assert forall|k: int| 0 <= k < told.len() implies follows(
            #[trigger] front[k],
            front[k + 1],
            told[k],
        ) by {
            assert(follows(states[k], states[k + 1], notifications[k]));
        }
        lemma_surfaces_stay_connected(front, told);
        let last = notifications.len() as int;
        assert(surfaces_connected(front[last - 1]));
        assert(follows(states[last - 1], states[last], notifications[last - 1]));
        lemma_notification_keeps_connected(
            states[last - 1],
            states[last],
            notifications[last - 1],
        );
        assert forall|k: int| 0 <= k < states.len() implies surfaces_connected(
            #[trigger] states[k],
        ) by {
            if k < last {
                assert(states[k] == front[k]);
            }
        }
    }
}

/// A state without a device holds no surface, so all its surfaces are connected.
pub proof fn lemma_no_device_no_surface(state: State<DrmData>)
    requires
        state.backend_data.devices@.len() == 0,
    ensures
        surfaces_connected(state),
{
}

/// The surfaces that are retained are all retained again.
pub proof fn lemma_retained_again(surfaces: Seq<OutputSurface>, now: Seq<Assignment>)
    ensures
        retained(retained(surfaces, now), now) == retained(surfaces, now),
    decreases surfaces.len(),
{
    if surfaces.len() > 0 {
        lemma_retained_again(surfaces.drop_last(), now);
        let before = retained(surfaces.drop_last(), now);
        if driven(surfaces.last(), now) {
            let kept = before.push(surfaces.last());
            assert(kept.drop_last() =~= before);
        }
    }
}

/// What is kept of a layout is all kept again.
pub proof fn lemma_kept_again(outputs: Seq<MappedOutput>, device: u64, crtcs: Seq<u32>)
    ensures
        kept_of(kept_of(outputs, device, crtcs), device, crtcs) == kept_of(outputs, device, crtcs),
    decreases outputs.len(),
{
    if outputs.len() > 0 {
        lemma_kept_again(outputs.drop_last(), device, crtcs);
        let before = kept_of(outputs.drop_last(), device, crtcs);
        let entry = outputs.last();
        if entry.id.device != device || crtcs.contains(entry.id.crtc) {
            let kept = before.push(entry);
            assert(kept.drop_last() =~= before);
        }
    }
}

/// Where all devices but one are as they were and that one keeps its node, each device
/// is found where it was.
pub proof fn lemma_found_where_it_was(
    before: Seq<Device>,
    after: Seq<Device>,
    place: int,
    node: u64,
)
    requires
        super::others_unchanged(before, after, place),
        0 <= place < before.len(),
        after[place].node == before[place].node,
    ensures
        device_at(after, node) == device_at(before, node),
{
    lemma_device_at(before, node);
    lemma_device_at(after, node);
    assert forall|k: int| 0 <= k < before.len() implies (#[trigger] after[k]).node
        == before[k].node by {
        if k != place {
            assert(after[k] == before[k]);
        }
    }
    match device_at(before, node) {
        Some(i) => {
            assert(after[i].node == node);
            let k = device_at(after, node).unwrap();
            if k < i {
                assert(before[k].node != node);
            }
            if i < k {
                assert(after[i].node != node);
            }
        },
        None => {
            if device_at(after, node) is Some {
                let k = device_at(after, node).unwrap();
                assert(before[k].node != node);
            }
        },
    }
}

/// A second scan without a change of the driver's state finds nothing: after the
/// connectors of a device were scanned, scanning the same reading again yields no
/// event, and the device's surfaces, what it remembers of its connectors, and the
/// layout stay as they are.
pub proof fn lemma_rescan_changes_nothing(
    start: State<DrmData>,
    first: State<DrmData>,
    second: State<DrmData>,
    node: u64,
    snapshot: Seq<ConnectorReading>,
    first_events: Seq<ScanEvent>,
    second_events: Seq<ScanEvent>,
)
    requires
        first.changed(start, node, snapshot, first_events),
        second.changed(first, node, snapshot, second_events),
    ensures
        second_events.len() == 0,
        second.space.outputs@ == first.space.outputs@,
        second.backend_data.devices@.len() == first.backend_data.devices@.len(),
        forall|i: int|
            0 <= i < first.backend_data.devices@.len() ==> {
                &&& (#[trigger] second.backend_data.devices@[i]).surfaces@
                    == first.backend_data.devices@[i].surfaces@
                &&& second.backend_data.devices@[i].drm_scanner.assignments@
                    == first.backend_data.devices@[i].drm_scanner.assignments@
                &&& second.backend_data.devices@[i].node == first.backend_data.devices@[i].node
            },
{
    let zero = start.backend_data.devices@;
    let one = first.backend_data.devices@;
    let two = second.backend_data.devices@;
    lemma_device_at(zero, node);
    match device_at(zero, node) {
        None => {},
        Some(place) => {
            lemma_found_where_it_was(zero, one, place, node);
            let now = drivers(snapshot);
            lemma_scan_idempotent(snapshot);
            lemma_retained_again(zero[place].surfaces@, now);
            lemma_kept_again(start.space.outputs@, node, crtcs_of(one[place].surfaces@));
            assert forall|i: int| 0 <= i < one.len() implies {
                &&& (#[trigger] two[i]).surfaces@ == one[i].surfaces@
                &&& two[i].drm_scanner.assignments@ == one[i].drm_scanner.assignments@
                &&& two[i].node == one[i].node
            } by {
                if i != place {
                    assert(two[i] == one[i]);
                }
            }
        },
    }
}

} // verus!
