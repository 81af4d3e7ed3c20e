//! The DRM backend: devices, their connectors and output surfaces, and the session.

pub mod device;
pub mod handlers;
pub mod laws;
pub mod mode;
pub mod registry;
pub mod scanner;
pub mod session;
pub mod startup;
pub mod surface;
pub mod udev;

use crate::output::OutputId;
use crate::state::{position, State};
use vstd::prelude::*;

use self::device::Device;

verus! {

/// Whether the session holds the seat.
#[derive(Clone, Copy, Debug, PartialEq, Eq, Structural)]
pub enum SessionState {
    Active,
    /// Another session holds the seat: nothing may be asked of the driver.
    Paused,
}

/// The choice of renderer for one frame.
#[derive(Clone, Copy, Debug, PartialEq, Eq, Structural)]
pub enum RendererChoice {
    /// The primary GPU renders for its own device.
    Direct(u64),
    /// Another GPU drives the display: what is rendered is brought over from `source`
    /// to `target`.
    Bridged { source: u64, target: u64 },
}

/// The render nodes that can be rendered with.
#[derive(Clone, Debug, PartialEq, Eq)]
pub struct GpuManager {
    pub nodes: Vec<u64>,
}

/// What the DRM backend holds.
#[derive(Clone, Debug, PartialEq, Eq)]
pub struct DrmData {
    pub session: SessionState,
    pub devices: Vec<Device>,
    /// The render node of the GPU behind the seat, chosen once at start.
    pub primary_gpu: u64,
    pub gpu_manager: GpuManager,
}

/// The renderer for a device: direct where the device renders on the primary GPU,
/// bridged from the device's node to the primary GPU where it does not.
pub open spec fn renderer_for(primary: u64, render_node: u64) -> RendererChoice {
    if primary == render_node {
        RendererChoice::Direct(render_node)
    } else {
        RendererChoice::Bridged { source: render_node, target: primary }
    }
}

/// The nodes with one more, unless it is among them.
pub open spec fn with_node(nodes: Seq<u64>, node: u64) -> Seq<u64> {
    if nodes.contains(node) {
        nodes
    } else {
        nodes.push(node)
    }
}

/// The nodes without one.
pub open spec fn without_node(nodes: Seq<u64>, node: u64) -> Seq<u64>
    decreases nodes.len(),
{
    if nodes.len() == 0 {
        Seq::empty()
    } else {
        let before = without_node(nodes.drop_last(), node);
        if nodes.last() == node {
            before
        } else {
            before.push(nodes.last())
        }
    }
}

/// No device is in the list twice.
pub open spec fn distinct_nodes(devices: Seq<Device>) -> bool {
    forall|i: int, j: int|
        0 <= i < j < devices.len() ==> (#[trigger] devices[i]).node != (#[trigger] devices[j]).node
}

/// Where the device is in the list; the first place if it is there more than once.
pub open spec fn device_at(devices: Seq<Device>, node: u64) -> Option<int>
    decreases devices.len(),
{
    if devices.len() == 0 {
        None
    } else {
        match device_at(devices.drop_last(), node) {
            Some(i) => Some(i),
            None => if devices.last().node == node {
                Some(devices.len() - 1)
            } else {
                None
            },
        }
    }
}

/// Whether some device of the list drives the output.
pub open spec fn has_surface(devices: Seq<Device>, id: OutputId) -> bool {
    exists|i: int, j: int|
        0 <= i < devices.len() && 0 <= j < devices[i].surfaces@.len() && devices[i].node
            == id.device && (#[trigger] devices[i].surfaces@[j]).crtc == id.crtc
}

/// All devices but one are as they were.
pub open spec fn others_unchanged(before: Seq<Device>, after: Seq<Device>, place: int) -> bool {
    &&& after.len() == before.len()
    &&& forall|k: int| 0 <= k < before.len() && k != place ==> #[trigger] after[k] == before[k]
}

/// `device_at` finds a device exactly where it is in the list.
pub proof fn lemma_device_at(devices: Seq<Device>, node: u64)
    ensures
        match device_at(devices, node) {
            Some(i) => 0 <= i < devices.len() && devices[i].node == node && forall|j: int|
                0 <= j < i ==> (#[trigger] devices[j]).node != node,
            None => forall|j: int| 0 <= j < devices.len() ==> (#[trigger] devices[j]).node != node,
        },
    decreases devices.len(),
{
    if devices.len() > 0 {
        let front = devices.drop_last();
        lemma_device_at(front, node);
        assert(forall|j: int| 0 <= j < front.len() ==> front[j] == devices[j]);
        match device_at(front, node) {
            Some(i) => {
                assert(devices[i] == front[i]);
                assert forall|j: int| 0 <= j < i implies (#[trigger] devices[j]).node != node by {
                    assert(devices[j] == front[j]);
                }
            },
            None => {
                assert forall|j: int| 0 <= j < devices.len() - 1 implies (
                #[trigger] devices[j]).node != node by {
                    assert(devices[j] == front[j]);
                }
            },
        }
    }
}

/// Without a node the others are there as before, and that one is not.
pub proof fn lemma_without_node(nodes: Seq<u64>, node: u64)
    ensures
        forall|other: u64| #[trigger]
            without_node(nodes, node).contains(other) <==> nodes.contains(other) && other != node,
    decreases nodes.len(),
{
    let kept = without_node(nodes, node);
    if nodes.len() > 0 {
        let front = nodes.drop_last();
        let before = without_node(front, node);
        lemma_without_node(front, node);
        assert(forall|j: int| 0 <= j < front.len() ==> front[j] == nodes[j]);
        assert forall|other: u64| #[trigger]
            kept.contains(other) <==> nodes.contains(other) && other != node by {
            if kept.contains(other) {
                let k = choose|k: int| 0 <= k < kept.len() && kept[k] == other;
                if k < before.len() {
                    assert(before[k] == other);
                    assert(before.contains(other));
                    let j = choose|j: int| 0 <= j < front.len() && front[j] == other;
                    assert(nodes[j] == other);
                } else {
                    assert(nodes[nodes.len() - 1] == other);
                }
            }
            if nodes.contains(other) && other != node {
                let j = choose|j: int| 0 <= j < nodes.len() && nodes[j] == other;
                if j < front.len() {
                    assert(front[j] == other);
                    assert(front.contains(other));
                    assert(before.contains(other));
                    let k = choose|k: int| 0 <= k < before.len() && before[k] == other;
                    assert(kept[k] == other);
                } else {
                    assert(kept[kept.len() - 1] == other);
                }
            }
        }
    }
}

/// The devices as a map from each node to its device.
pub open spec fn device_map(devices: Seq<Device>) -> Map<u64, Device> {
    Map::new(|node: u64| device_at(devices, node) is Some, |node: u64|
        devices[device_at(devices, node).unwrap()])
}

/// Among devices that are all different, each is the device that the map gives for its
/// node.
pub proof fn lemma_device_map(devices: Seq<Device>, place: int)
    requires
        distinct_nodes(devices),
        0 <= place < devices.len(),
    ensures
        device_at(devices, devices[place].node) == Some(place),
        device_map(devices).dom().contains(devices[place].node),
        device_map(devices)[devices[place].node] == devices[place],
{
    let node = devices[place].node;
    lemma_device_at(devices, node);
    let found = device_at(devices, node).unwrap();
    if found < place {
        assert(devices[found].node != devices[place].node);
    }
    if place < found {
        assert(devices[place].node != devices[found].node);
    }
}

/// Where one of the devices changes and keeps its node, the map gives the changed
/// device for that node and is as it was for the others.
pub proof fn lemma_changed_map(before: Seq<Device>, after: Seq<Device>, place: int)
    requires
        distinct_nodes(before),
        0 <= place < before.len(),
        others_unchanged(before, after, place),
        after[place].node == before[place].node,
    ensures
        device_map(after) == device_map(before).insert(before[place].node, after[place]),
{
    let wanted = device_map(before).insert(before[place].node, after[place]);
    assert forall|i: int, j: int| 0 <= i < j < after.len() implies (#[trigger] after[i]).node != (
    #[trigger] after[j]).node by {
        assert(before[i].node != before[j].node);
        if i != place {
            assert(after[i] == before[i]);
        }
        if j != place {
            assert(after[j] == before[j]);
        }
    }
    assert forall|node: u64| #[trigger]
        device_map(after).dom().contains(node) <==> wanted.dom().contains(node) by {
        lemma_device_at(before, node);
        lemma_device_at(after, node);
        if device_at(after, node) is Some {
            let k = device_at(after, node).unwrap();
            if k != place {
                assert(after[k] == before[k]);
                assert(before[k].node == node);
            }
        }
        if device_at(before, node) is Some {
            let k = device_at(before, node).unwrap();
            if k != place {
                assert(after[k] == before[k]);
            }
            assert(after[k].node == node);
        }
    }
    assert forall|node: u64| #[trigger] device_map(after).dom().contains(node) implies device_map(
        after,
    )[node] == wanted[node] by {
        lemma_device_at(after, node);
        let k = device_at(after, node).unwrap();
        lemma_device_map(after, k);
        if k != place {
            assert(after[k] == before[k]);
            lemma_device_map(before, k);
        }
    }
    assert(device_map(after) =~= wanted);
}

/// Without one of the devices, the map is without its node.
pub proof fn lemma_removed_map(devices: Seq<Device>, place: int)
    requires
        distinct_nodes(devices),
        0 <= place < devices.len(),
    ensures
        device_map(devices.remove(place)) == device_map(devices).remove(devices[place].node),
{
    let after = devices.remove(place);
    let wanted = device_map(devices).remove(devices[place].node);
    assert forall|i: int, j: int| 0 <= i < j < after.len() implies (#[trigger] after[i]).node != (
    #[trigger] after[j]).node by {
        let a = if i < place {
            i
        } else {
            i + 1
        };
        let b = if j < place {
            j
        } else {
            j + 1
        };
        assert(after[i] == devices[a] && after[j] == devices[b]);
        assert(devices[a].node != devices[b].node);
    }
    assert forall|node: u64| #[trigger]
        device_map(after).dom().contains(node) <==> wanted.dom().contains(node) by {
        lemma_device_at(devices, node);
        lemma_device_at(after, node);
        if device_at(after, node) is Some {
            let k = device_at(after, node).unwrap();
            let a = if k < place {
                k
            } else {
                k + 1
            };
            assert(after[k] == devices[a]);
            assert(devices[a].node == node);
            if a < place {
                assert(devices[a].node != devices[place].node);
            } else {
                assert(devices[place].node != devices[a].node);
            }
        }
        if device_at(devices, node) is Some && node != devices[place].node {
            let a = device_at(devices, node).unwrap();
            let k = if a < place {
                a
            } else {
                a - 1
            };
            assert(after[k] == devices[a]);
            assert(after[k].node == node);
        }
    }
    assert forall|node: u64| #[trigger] device_map(after).dom().contains(node) implies device_map(
        after,
    )[node] == wanted[node] by {
        lemma_device_at(after, node);
        let k = device_at(after, node).unwrap();
        lemma_device_map(after, k);
        let a = if k < place {
            k
        } else {
            k + 1
        };
        assert(after[k] == devices[a]);
        lemma_device_map(devices, a);
    }
    assert(device_map(after) =~= wanted);
}

/// With one more device of a node that no device had, the map gives that device for
/// its node and is as it was for the others.
pub proof fn lemma_pushed_map(devices: Seq<Device>, device: Device)
    requires
        distinct_nodes(devices),
        device_at(devices, device.node) is None,
    ensures
        device_map(devices.push(device)) == device_map(devices).insert(device.node, device),
{
    let after = devices.push(device);
    let wanted = device_map(devices).insert(device.node, device);
    lemma_device_at(devices, device.node);
    assert forall|i: int, j: int| 0 <= i < j < after.len() implies (#[trigger] after[i]).node != (
    #[trigger] after[j]).node by {
        if j < devices.len() {
            assert(after[i] == devices[i] && after[j] == devices[j]);
        } else {
            assert(after[i] == devices[i]);
        }
    }
    assert forall|node: u64| #[trigger]
        device_map(after).dom().contains(node) <==> wanted.dom().contains(node) by {
        lemma_device_at(devices, node);
        lemma_device_at(after, node);
        if device_at(after, node) is Some {
            let k = device_at(after, node).unwrap();
            if k < devices.len() {
                assert(devices[k] == after[k]);
            }
        }
        if device_at(devices, node) is Some {
            let k = device_at(devices, node).unwrap();
            assert(after[k].node == node);
        }
        if node == device.node {
            assert(after[devices.len() as int].node == node);
        }
    }
    assert forall|node: u64| #[trigger] device_map(after).dom().contains(node) implies device_map(
        after,
    )[node] == wanted[node] by {
        lemma_device_at(after, node);
        let k = device_at(after, node).unwrap();
        lemma_device_map(after, k);
        if k < devices.len() {
            assert(devices[k] == after[k]);
            lemma_device_map(devices, k);
        }
    }
    assert(device_map(after) =~= wanted);
}

/// Picks the renderer for a device by comparing its render node with the primary GPU.
pub fn select_renderer(primary: u64, render_node: u64) -> (choice: RendererChoice)
    ensures
        choice == renderer_for(primary, render_node),
{
    if primary == render_node {
        RendererChoice::Direct(render_node)
    } else {
        RendererChoice::Bridged { source: render_node, target: primary }
    }
}

impl View for GpuManager {
    type V = Set<u64>;

    /// The nodes that are registered.
    open spec fn view(&self) -> Set<u64> {
        self.nodes@.to_set()
    }
}

impl GpuManager {
    /// Whether the node can be rendered with.
    pub fn has_node(&self, node: u64) -> (found: bool)
        ensures
            found == self@.contains(node),
            found == self.nodes@.contains(node),
    {
        let mut i: usize = 0;
        while i < self.nodes.len()
            invariant
                0 <= i <= self.nodes@.len(),
                forall|k: int| 0 <= k < i ==> self.nodes@[k] != node,
            decreases self.nodes@.len() - i,
        {
            if self.nodes[i] == node {
                return true;
            }
            i += 1;
        }
        false
    }

    /// Registers a render node; one that is registered stays as it is.
    pub fn add_node(&mut self, node: u64)
        ensures
            final(self)@ == old(self)@.insert(node),
            final(self).nodes@ == with_node(old(self).nodes@, node),
            final(self).nodes@.contains(node),
            forall|other: u64|
                old(self).nodes@.contains(other) ==> final(self).nodes@.contains(other),
    {
        if !self.has_node(node) {
            let ghost before = self.nodes@;
            self.nodes.push(node);
            proof {
                assert(self.nodes@[before.len() as int] == node);
                assert forall|other: u64| before.contains(other) implies self.nodes@.contains(
                    other,
                ) by {
                    let k = choose|k: int| 0 <= k < before.len() && before[k] == other;
                    assert(self.nodes@[k] == other);
                }
                assert forall|other: u64| self.nodes@.contains(other) implies before.contains(other)
                    || other == node by {
                    let k = choose|k: int| 0 <= k < self.nodes@.len() && self.nodes@[k] == other;
                    if k < before.len() {
                        assert(before[k] == other);
                    }
                }
            }
        }
        proof {
            assert(self@ =~= old(self)@.insert(node));
        }
    }

    /// Unregisters a render node.
    pub fn remove_node(&mut self, node: u64)
        ensures
            final(self)@ == old(self)@.remove(node),
            final(self).nodes@ == without_node(old(self).nodes@, node),
            !final(self).nodes@.contains(node),
            forall|other: u64|
                other != node && old(self).nodes@.contains(other) ==> final(self).nodes@.contains(
                    other,
                ),
    {
        let ghost all = self.nodes@;
        let ghost mut done: int = 0;
        let mut i: usize = 0;
        while i < self.nodes.len()
            invariant
                0 <= done <= all.len(),
                0 <= i <= self.nodes@.len(),
                i == without_node(all.take(done), node).len(),
                self.nodes@ == without_node(all.take(done), node) + all.skip(done),
            decreases all.len() - done,
        {
            proof {
                assert(all.take(done + 1).drop_last() =~= all.take(done));
                assert(all.take(done + 1).last() == all[done]);
                assert(self.nodes@[i as int] == all.skip(done)[0]);
            }
            if self.nodes[i] == node {
                self.nodes.remove(i);
                proof {
                    assert(without_node(all.take(done + 1), node) + all.skip(done + 1)
                        =~= self.nodes@);
                }
            } else {
                proof {
                    assert(without_node(all.take(done + 1), node) + all.skip(done + 1)
                        =~= self.nodes@);
                }
                i += 1;
            }
            proof {
                done = done + 1;
            }
        }
        proof {
            assert(all.skip(done).len() == 0);
            assert(all.take(done) =~= all);
            assert(self.nodes@ =~= without_node(all, node));
            lemma_without_node(all, node);
            assert(self@ =~= old(self)@.remove(node));
        }
    }
}

impl View for DrmData {
    type V = Map<u64, Device>;

    /// The device of each node that has one.
    open spec fn view(&self) -> Map<u64, Device> {
        device_map(self.devices@)
    }
}

impl DrmData {
    /// No device is there twice, each device is sound and live exactly while the
    /// session is active, and the primary GPU can be rendered with.
    pub open spec fn wf(&self) -> bool {
        &&& distinct_nodes(self.devices@)
        &&& forall|i: int|
            0 <= i < self.devices@.len() ==> (#[trigger] self.devices@[i]).wf()
                && self.devices@[i].active == (self.session == SessionState::Active)
        &&& self.gpu_manager@.contains(self.primary_gpu)
    }

    /// The data of a backend that has found its primary GPU and no device yet, in an
    /// active session.
    pub fn new(primary_gpu: u64) -> (data: DrmData)
        ensures
            data.session == SessionState::Active,
            data.devices@ == Seq::<Device>::empty(),
            data.primary_gpu == primary_gpu,
            data.gpu_manager.nodes@ == seq![primary_gpu],
            data.gpu_manager@ == set![primary_gpu],
            data.wf(),
    {
        let mut nodes: Vec<u64> = Vec::new();
        nodes.push(primary_gpu);
        proof {
            assert(nodes@ =~= seq![primary_gpu]);
            assert(nodes@[0] == primary_gpu);
            assert(nodes@.to_set() =~= set![primary_gpu]);
        }
        DrmData {
            session: SessionState::Active,
            devices: Vec::new(),
            primary_gpu,
            gpu_manager: GpuManager { nodes },
        }
    }

    /// Where the device is in the registry.
    pub fn find_device(&self, node: u64) -> (place: Option<usize>)
        ensures
            place is Some <==> self@.dom().contains(node),
            place matches Some(i) ==> i < self.devices@.len() && self@[node] == self.devices@[i as int],
            match place {
                Some(i) => device_at(self.devices@, node) == Some(i as int) && i
                    < self.devices@.len() && self.devices@[i as int].node == node,
                None => device_at(self.devices@, node) is None,
            },
    {
        let mut found: Option<usize> = None;
        let mut i: usize = 0;
        while i < self.devices.len()
            invariant
                0 <= i <= self.devices@.len(),
                match found {
                    Some(k) => device_at(self.devices@.take(i as int), node) == Some(k as int)
                        && k < i && self.devices@[k as int].node == node,
                    None => device_at(self.devices@.take(i as int), node) is None,
                },
            decreases self.devices@.len() - i,
        {
            proof {
                assert(self.devices@.take(i + 1).drop_last() =~= self.devices@.take(i as int));
            }
            if found.is_none() && self.devices[i].node == node {
                found = Some(i);
            }
            i += 1;
        }
        proof {
            assert(self.devices@.take(i as int) =~= self.devices@);
        }
        found
    }

    /// Whether the session is active.
    pub fn is_active(&self) -> (active: bool)
        ensures
            active == (self.session == SessionState::Active),
    {
        match self.session {
            SessionState::Active => true,
            SessionState::Paused => false,
        }
    }
}

impl State<DrmData> {
    /// The layout and the data of the backend are sound, and the layout holds exactly
    /// the outputs that a device drives.
    pub open spec fn drm_wf(&self) -> bool {
        &&& self.space.wf()
        &&& self.backend_data.wf()
        &&& forall|id: OutputId| #[trigger]
            self.space.maps(id) <==> has_surface(self.backend_data.devices@, id)
    }
}

/// No output surface outlives its connector: in a sound state each surface is that of a
/// connector which, at the last scan of its device, drove the surface's CRTC.
pub proof fn lemma_surfaces_are_connected(state: State<DrmData>, device: int, surface: int)
    requires
        state.drm_wf(),
        0 <= device < state.backend_data.devices@.len(),
        0 <= surface < state.backend_data.devices@[device].surfaces@.len(),
    ensures
        scanner::assigned(
            state.backend_data.devices@[device].drm_scanner.assignments@,
            state.backend_data.devices@[device].surfaces@[surface].connector,
        ) == Some(state.backend_data.devices@[device].surfaces@[surface].crtc),
        state.backend_data.devices@[device].drm_scanner.assignments@.contains(
            scanner::Assignment {
                connector: state.backend_data.devices@[device].surfaces@[surface].connector,
                crtc: state.backend_data.devices@[device].surfaces@[surface].crtc,
            },
        ),
{
    let held = state.backend_data.devices@[device];
    assert(held.wf());
    assert(device::driven(held.surfaces@[surface], held.drm_scanner.assignments@));
    scanner::lemma_assigned_occurs(
        held.drm_scanner.assignments@,
        held.surfaces@[surface].connector,
    );
}

/// The layout maps an output exactly where one of its entries is that output's.
pub proof fn lemma_maps(outputs: Seq<crate::state::MappedOutput>, id: OutputId)
    ensures
        position(outputs, id) is Some <==> exists|k: int|
            0 <= k < outputs.len() && (#[trigger] outputs[k]).id == id,
{
    crate::state::lemma_position(outputs, id);
}

} // verus!
