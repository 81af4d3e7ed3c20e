//! How the outputs that the devices drive change with the devices.

use crate::output::OutputId;
use crate::state::{
    kept_of, lemma_kept_maps, lemma_with_output_maps, with_output, MappedOutput, State,
};
use vstd::prelude::*;

use super::{distinct_nodes, has_surface, others_unchanged, DrmData};
use super::device::{crtcs_of, lemma_without_crtc, without_crtc, Device};
use super::surface::OutputSurface;

verus! {

/// Whether the device has a surface on the CRTC.
pub open spec fn on_crtc(device: Device, crtc: u32) -> bool {
    exists|j: int| 0 <= j < device.surfaces@.len() && (#[trigger] device.surfaces@[j]).crtc == crtc
}

/// Among devices that are all different, an output is driven by the device it names.
pub proof fn lemma_has_surface_of(devices: Seq<Device>, place: int, id: OutputId)
    requires
        distinct_nodes(devices),
        0 <= place < devices.len(),
        devices[place].node == id.device,
    ensures
        has_surface(devices, id) <==> on_crtc(devices[place], id.crtc),
{
    if has_surface(devices, id) {
        let (i, j) = choose|i: int, j: int|
            0 <= i < devices.len() && 0 <= j < devices[i].surfaces@.len() && devices[i].node
                == id.device && (#[trigger] devices[i].surfaces@[j]).crtc == id.crtc;
        if i < place {
            assert(devices[i].node != devices[place].node);
        } else if place < i {
            assert(devices[place].node != devices[i].node);
        }
        assert(devices[place].surfaces@[j].crtc == id.crtc);
    }
    if on_crtc(devices[place], id.crtc) {
        let j = choose|j: int|
            0 <= j < devices[place].surfaces@.len() && (#[trigger] devices[place].surfaces@[j]).crtc
                == id.crtc;
        assert(devices[place].surfaces@[j].crtc == id.crtc);
    }
}

/// Where one device changes and keeps its node, the outputs of the others are driven as
/// before, and the devices are still all different.
pub proof fn lemma_has_surface_elsewhere(
    before: Seq<Device>,
    after: Seq<Device>,
    place: int,
    id: OutputId,
)
    requires
        0 <= place < before.len(),
        others_unchanged(before, after, place),
        after[place].node == before[place].node,
        id.device != before[place].node,
    ensures
        has_surface(after, id) <==> has_surface(before, id),
{
    if has_surface(after, id) {
        let (i, j) = choose|i: int, j: int|
            0 <= i < after.len() && 0 <= j < after[i].surfaces@.len() && after[i].node == id.device
                && (#[trigger] after[i].surfaces@[j]).crtc == id.crtc;
        assert(after[i] == before[i]);
        assert(before[i].surfaces@[j].crtc == id.crtc);
    }
    if has_surface(before, id) {
        let (i, j) = choose|i: int, j: int|
            0 <= i < before.len() && 0 <= j < before[i].surfaces@.len() && before[i].node
                == id.device && (#[trigger] before[i].surfaces@[j]).crtc == id.crtc;
        assert(after[i] == before[i]);
        assert(after[i].surfaces@[j].crtc == id.crtc);
    }
}

/// Where one device changes and keeps its node, the devices are still all different.
pub proof fn lemma_still_distinct(before: Seq<Device>, after: Seq<Device>, place: int)
    requires
        distinct_nodes(before),
        0 <= place < before.len(),
        others_unchanged(before, after, place),
        after[place].node == before[place].node,
    ensures
        distinct_nodes(after),
{
    assert forall|i: int, j: int| 0 <= i < j < after.len() implies (#[trigger] after[i]).node != (
    #[trigger] after[j]).node by {
        assert(before[i].node != before[j].node);
        if i != place {
            assert(after[i] == before[i]);
        }
        if j != place {
            assert(after[j] == before[j]);
        }
    }
}

/// Without one of the devices, that one's outputs are driven no more and the others'
/// are driven as before.
pub proof fn lemma_has_surface_removed(devices: Seq<Device>, place: int, id: OutputId)
    requires
        distinct_nodes(devices),
        0 <= place < devices.len(),
    ensures
        has_surface(devices.remove(place), id) <==> id.device != devices[place].node
            && has_surface(devices, id),
        distinct_nodes(devices.remove(place)),
{
    let after = devices.remove(place);
    assert forall|i: int, j: int| 0 <= i < j < after.len() implies (#[trigger] after[i]).node != (
    #[trigger] after[j]).node by {
        let a = if i < place {
            i
        } else {
            i + 1
        };
        let b = if j < place {
            j
        } else {
            j + 1
        };
        assert(after[i] == devices[a] && after[j] == devices[b]);
        assert(devices[a].node != devices[b].node);
    }
    if has_surface(after, id) {
        let (i, j) = choose|i: int, j: int|
            0 <= i < after.len() && 0 <= j < after[i].surfaces@.len() && after[i].node == id.device
                && (#[trigger] after[i].surfaces@[j]).crtc == id.crtc;
        let a = if i < place {
            i
        } else {
            i + 1
        };
        assert(after[i] == devices[a]);
        assert(devices[a].surfaces@[j].crtc == id.crtc);
        if a < place {
            assert(devices[a].node != devices[place].node);
        } else {
            assert(devices[place].node != devices[a].node);
        }
    }
    if id.device != devices[place].node && has_surface(devices, id) {
        let (i, j) = choose|i: int, j: int|
            0 <= i < devices.len() && 0 <= j < devices[i].surfaces@.len() && devices[i].node
                == id.device && (#[trigger] devices[i].surfaces@[j]).crtc == id.crtc;
        let a = if i < place {
            i
        } else {
            i - 1
        };
        assert(after[a] == devices[i]);
        assert(after[a].surfaces@[j].crtc == id.crtc);
    }
}

/// With one more device that has no surface, the same outputs are driven.
pub proof fn lemma_has_surface_pushed(devices: Seq<Device>, device: Device, id: OutputId)
    requires
        device.surfaces@.len() == 0,
    ensures
        has_surface(devices.push(device), id) <==> has_surface(devices, id),
{
    let after = devices.push(device);
    if has_surface(after, id) {
        let (i, j) = choose|i: int, j: int|
            0 <= i < after.len() && 0 <= j < after[i].surfaces@.len() && after[i].node == id.device
                && (#[trigger] after[i].surfaces@[j]).crtc == id.crtc;
        assert(after[i] == devices[i]);
        assert(devices[i].surfaces@[j].crtc == id.crtc);
    }
    if has_surface(devices, id) {
        let (i, j) = choose|i: int, j: int|
            0 <= i < devices.len() && 0 <= j < devices[i].surfaces@.len() && devices[i].node
                == id.device && (#[trigger] devices[i].surfaces@[j]).crtc == id.crtc;
        assert(after[i] == devices[i]);
        assert(after[i].surfaces@[j].crtc == id.crtc);
    }
}

/// Where one device loses surfaces and the layout loses the outputs that this device
/// drives no more, the layout still holds exactly the outputs that a device drives.
pub proof fn lemma_shrink_keeps_layout(
    before: State<DrmData>,
    after: State<DrmData>,
    place: int,
)
    requires
        before.drm_wf(),
        0 <= place < before.backend_data.devices@.len(),
        others_unchanged(before.backend_data.devices@, after.backend_data.devices@, place),
        after.backend_data.devices@[place].node == before.backend_data.devices@[place].node,
        forall|surface: super::surface::OutputSurface|
            after.backend_data.devices@[place].surfaces@.contains(surface) ==> #[trigger]
            before.backend_data.devices@[place].surfaces@.contains(surface),
        after.space.outputs@ == kept_of(
            before.space.outputs@,
            before.backend_data.devices@[place].node,
            crtcs_of(after.backend_data.devices@[place].surfaces@),
        ),
    ensures
        forall|id: OutputId| #[trigger]
            after.space.maps(id) <==> has_surface(after.backend_data.devices@, id),
        distinct_nodes(after.backend_data.devices@),
{
    let old_devices = before.backend_data.devices@;
    let new_devices = after.backend_data.devices@;
    let node = old_devices[place].node;
    let crtcs = crtcs_of(new_devices[place].surfaces@);
    lemma_still_distinct(old_devices, new_devices, place);
    assert forall|id: OutputId| #[trigger]
        after.space.maps(id) <==> has_surface(new_devices, id) by {
        lemma_kept_maps(before.space.outputs@, node, crtcs, id);
        assert(before.space.maps(id) <==> has_surface(old_devices, id));
        if id.device != node {
            lemma_has_surface_elsewhere(old_devices, new_devices, place, id);
        } else {
            lemma_has_surface_of(new_devices, place, id);
            lemma_has_surface_of(old_devices, place, id);
            let shrunk = new_devices[place].surfaces@;
            if crtcs.contains(id.crtc) {
                let j = choose|j: int| 0 <= j < crtcs.len() && crtcs[j] == id.crtc;
                assert(shrunk[j].crtc == id.crtc);
            }
            if on_crtc(new_devices[place], id.crtc) {
                let j = choose|j: int|
                    0 <= j < shrunk.len() && (#[trigger] shrunk[j]).crtc == id.crtc;
                assert(crtcs[j] == id.crtc);
                assert(shrunk.contains(shrunk[j]));
                assert(old_devices[place].surfaces@.contains(shrunk[j]));
                let k = choose|k: int|
                    0 <= k < old_devices[place].surfaces@.len() && old_devices[place].surfaces@[k]
                        == shrunk[j];
                assert(old_devices[place].surfaces@[k].crtc == id.crtc);
            }
        }
    }
}

/// Where the surfaces of one device stay on their CRTCs, the same outputs are driven.
pub proof fn lemma_same_crtcs(before: Seq<Device>, after: Seq<Device>, place: int)
    requires
        distinct_nodes(before),
        0 <= place < before.len(),
        others_unchanged(before, after, place),
        after[place].node == before[place].node,
        crtcs_of(after[place].surfaces@) == crtcs_of(before[place].surfaces@),
    ensures
        forall|id: OutputId| has_surface(after, id) <==> #[trigger] has_surface(before, id),
        distinct_nodes(after),
{
    lemma_still_distinct(before, after, place);
    let earlier = before[place].surfaces@;
    let later = after[place].surfaces@;
    assert(later.len() == crtcs_of(later).len());
    assert(earlier.len() == crtcs_of(earlier).len());
    assert forall|id: OutputId| has_surface(after, id) <==> #[trigger] has_surface(
        before,
        id,
    ) by {
        if id.device != before[place].node {
            lemma_has_surface_elsewhere(before, after, place, id);
        } else {
            lemma_has_surface_of(before, place, id);
            lemma_has_surface_of(after, place, id);
            if on_crtc(before[place], id.crtc) {
                let j = choose|j: int|
                    0 <= j < earlier.len() && (#[trigger] earlier[j]).crtc == id.crtc;
                assert(crtcs_of(later)[j] == crtcs_of(earlier)[j]);
                assert(later[j].crtc == id.crtc);
            }
            if on_crtc(after[place], id.crtc) {
                let j = choose|j: int| 0 <= j < later.len() && (#[trigger] later[j]).crtc == id.crtc;
                assert(crtcs_of(later)[j] == crtcs_of(earlier)[j]);
                assert(earlier[j].crtc == id.crtc);
            }
        }
    }
}

/// Where one device takes a surface in, in place of any on the same CRTC, and the
/// layout takes its output in, the layout still holds exactly the outputs that a device
/// drives.
pub proof fn lemma_grow_keeps_layout(
    before: State<DrmData>,
    after: State<DrmData>,
    place: int,
    surface: OutputSurface,
    entry: MappedOutput,
)
    requires
        before.drm_wf(),
        0 <= place < before.backend_data.devices@.len(),
        others_unchanged(before.backend_data.devices@, after.backend_data.devices@, place),
        after.backend_data.devices@[place].node == before.backend_data.devices@[place].node,
        after.backend_data.devices@[place].surfaces@ == without_crtc(
            before.backend_data.devices@[place].surfaces@,
            surface.crtc,
        ).push(surface),
        entry.id == (OutputId {
            device: before.backend_data.devices@[place].node,
            crtc: surface.crtc,
        }),
        after.space.outputs@ == with_output(before.space.outputs@, entry),
    ensures
        forall|id: OutputId| #[trigger]
            after.space.maps(id) <==> has_surface(after.backend_data.devices@, id),
        distinct_nodes(after.backend_data.devices@),
{
    let old_devices = before.backend_data.devices@;
    let new_devices = after.backend_data.devices@;
    let node = old_devices[place].node;
    let earlier = old_devices[place].surfaces@;
    let rest = without_crtc(earlier, surface.crtc);
    let later = new_devices[place].surfaces@;
    lemma_still_distinct(old_devices, new_devices, place);
    lemma_without_crtc(earlier, surface.crtc);
    assert forall|id: OutputId| #[trigger]
        after.space.maps(id) <==> has_surface(new_devices, id) by {
        lemma_with_output_maps(before.space.outputs@, entry, id);
        assert(before.space.maps(id) <==> has_surface(old_devices, id));
        if id.device != node {
            lemma_has_surface_elsewhere(old_devices, new_devices, place, id);
        } else {
            lemma_has_surface_of(new_devices, place, id);
            lemma_has_surface_of(old_devices, place, id);
            if id.crtc == surface.crtc {
                assert(later[later.len() - 1].crtc == id.crtc);
            } else {
                if on_crtc(old_devices[place], id.crtc) {
                    let j = choose|j: int|
                        0 <= j < earlier.len() && (#[trigger] earlier[j]).crtc == id.crtc;
                    assert(earlier.contains(earlier[j]));
                    assert(rest.contains(earlier[j]));
                    let k = choose|k: int| 0 <= k < rest.len() && rest[k] == earlier[j];
                    assert(later[k].crtc == id.crtc);
                }
                if on_crtc(new_devices[place], id.crtc) {
                    let k = choose|k: int|
                        0 <= k < later.len() && (#[trigger] later[k]).crtc == id.crtc;
                    assert(k < rest.len());
                    assert(rest[k] == later[k]);
                    assert(rest.contains(rest[k]));
                    assert(earlier.contains(rest[k]));
                    let j = choose|j: int| 0 <= j < earlier.len() && earlier[j] == rest[k];
                    assert(earlier[j].crtc == id.crtc);
                }
            }
        }
    }
}

} // verus!
