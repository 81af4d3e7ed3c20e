//! A display device: the surfaces it drives and what its connectors last showed.

use crate::backend::Error;
use crate::state::Space;
use vstd::prelude::*;

use super::scanner::{
    assigned, drivers, scan_events, Assignment, ConnectorReading, ConnectorScanner, ScanEvent,
};
use super::surface::{frame_after, Frame, FrameInput, FrameState, OutputSurface, SurfaceStep};

verus! {

/// One GPU with its connectors.
#[derive(Clone, Debug, PartialEq, Eq)]
pub struct Device {
    /// The identifier of the device node.
    pub node: u64,
    /// The node that renders for this device: its render node, or the device itself
    /// where it has none.
    pub render_node: u64,
    /// Whether the mode-setting handle is live; it is suspended while the session is
    /// paused.
    pub active: bool,
    /// The output surfaces, one for each CRTC that drives a monitor.
    pub surfaces: Vec<OutputSurface>,
    /// What the connectors showed at the last scan.
    pub drm_scanner: ConnectorScanner,
}

/// No CRTC has two surfaces.
pub open spec fn distinct_crtcs(surfaces: Seq<OutputSurface>) -> bool {
    forall|i: int, j: int|
        0 <= i < j < surfaces.len() ==> (#[trigger] surfaces[i]).crtc != (
        #[trigger] surfaces[j]).crtc
}

/// The surface is that of a connector which, by these assignments, drives its CRTC.
pub open spec fn driven(surface: OutputSurface, now: Seq<Assignment>) -> bool {
    assigned(now, surface.connector) == Some(surface.crtc)
}

/// The surfaces whose connector still drives their CRTC, in their order.
pub open spec fn retained(surfaces: Seq<OutputSurface>, now: Seq<Assignment>) -> Seq<
    OutputSurface,
>
    decreases surfaces.len(),
{
    if surfaces.len() == 0 {
        Seq::empty()
    } else {
        let before = retained(surfaces.drop_last(), now);
        if driven(surfaces.last(), now) {
            before.push(surfaces.last())
        } else {
            before
        }
    }
}

/// The surfaces without that of one connector on one CRTC.
pub open spec fn without_surface(surfaces: Seq<OutputSurface>, connector: u32, crtc: u32) -> Seq<
    OutputSurface,
>
    decreases surfaces.len(),
{
    if surfaces.len() == 0 {
        Seq::empty()
    } else {
        let before = without_surface(surfaces.drop_last(), connector, crtc);
        if surfaces.last().crtc == crtc && surfaces.last().connector == connector {
            before
        } else {
            before.push(surfaces.last())
        }
    }
}

/// The surfaces without any on one CRTC.
pub open spec fn without_crtc(surfaces: Seq<OutputSurface>, crtc: u32) -> Seq<OutputSurface>
    decreases surfaces.len(),
{
    if surfaces.len() == 0 {
        Seq::empty()
    } else {
        let before = without_crtc(surfaces.drop_last(), crtc);
        if surfaces.last().crtc == crtc {
            before
        } else {
            before.push(surfaces.last())
        }
    }
}

/// The CRTCs of the surfaces, in their order.
pub open spec fn crtcs_of(surfaces: Seq<OutputSurface>) -> Seq<u32> {
    Seq::new(surfaces.len(), |i: int| surfaces[i].crtc)
}

/// Where the surface on a CRTC is in the list; the first place if there are several.
pub open spec fn surface_at(surfaces: Seq<OutputSurface>, crtc: u32) -> Option<int>
    decreases surfaces.len(),
{
    if surfaces.len() == 0 {
        None
    } else {
        match surface_at(surfaces.drop_last(), crtc) {
            Some(i) => Some(i),
            None => if surfaces.last().crtc == crtc {
                Some(surfaces.len() - 1)
            } else {
                None
            },
        }
    }
}

/// The surfaces with none in flight and none asked for: each as it was, with its
/// buffers dropped.
pub open spec fn all_reset(before: Seq<OutputSurface>, after: Seq<OutputSurface>) -> bool {
    &&& after.len() == before.len()
    &&& forall|i: int|
        0 <= i < before.len() ==> (#[trigger] after[i]) == (OutputSurface {
            frame: FrameState::Idle,
            ..before[i]
        })
}

/// The surfaces as a map from each CRTC to the surface on it.
pub open spec fn surface_map(surfaces: Seq<OutputSurface>) -> Map<u32, OutputSurface> {
    Map::new(|crtc: u32| surface_at(surfaces, crtc) is Some, |crtc: u32|
        surfaces[surface_at(surfaces, crtc).unwrap()])
}

/// Of a map of surfaces, those whose connector still drives their CRTC.
pub open spec fn still_driven(surfaces: Map<u32, OutputSurface>, now: Seq<Assignment>) -> Map<
    u32,
    OutputSurface,
> {
    Map::new(|crtc: u32| surfaces.dom().contains(crtc) && driven(surfaces[crtc], now), |crtc: u32|
        surfaces[crtc])
}

/// A map of surfaces without that of one connector on one CRTC.
pub open spec fn unplugged(surfaces: Map<u32, OutputSurface>, connector: u32, crtc: u32) -> Map<
    u32,
    OutputSurface,
> {
    if surfaces.dom().contains(crtc) && surfaces[crtc].connector == connector {
        surfaces.remove(crtc)
    } else {
        surfaces
    }
}

/// In surfaces that are each on a CRTC of their own, each is the surface that the map
/// gives for its CRTC.
pub proof fn lemma_surface_map(surfaces: Seq<OutputSurface>, place: int)
    requires
        distinct_crtcs(surfaces),
        0 <= place < surfaces.len(),
    ensures
        surface_at(surfaces, surfaces[place].crtc) == Some(place),
        surface_map(surfaces).dom().contains(surfaces[place].crtc),
        surface_map(surfaces)[surfaces[place].crtc] == surfaces[place],
{
    let crtc = surfaces[place].crtc;
    lemma_surface_at(surfaces, crtc);
    let found = surface_at(surfaces, crtc).unwrap();
    if found < place {
        assert(surfaces[found].crtc != surfaces[place].crtc);
    }
    if place < found {
        assert(surfaces[place].crtc != surfaces[found].crtc);
    }
}

/// The map of the surfaces that are retained is the map of those that are still
/// driven.
pub proof fn lemma_retained_map(surfaces: Seq<OutputSurface>, now: Seq<Assignment>)
    requires
        distinct_crtcs(surfaces),
    ensures
        surface_map(retained(surfaces, now)) == still_driven(surface_map(surfaces), now),
{
    let kept = retained(surfaces, now);
    lemma_retained(surfaces, now);
    assert forall|crtc: u32| #[trigger]
        surface_map(kept).dom().contains(crtc) <==> still_driven(
            surface_map(surfaces),
            now,
        ).dom().contains(crtc) by {
        lemma_surface_at(kept, crtc);
        lemma_surface_at(surfaces, crtc);
        if surface_at(kept, crtc) is Some {
            let k = surface_at(kept, crtc).unwrap();
            assert(kept.contains(kept[k]));
            let j = choose|j: int| 0 <= j < surfaces.len() && surfaces[j] == kept[k];
            lemma_surface_map(surfaces, j);
        }
        if surface_at(surfaces, crtc) is Some && driven(
            surfaces[surface_at(surfaces, crtc).unwrap()],
            now,
        ) {
            let j = surface_at(surfaces, crtc).unwrap();
            assert(surfaces.contains(surfaces[j]));
            assert(kept.contains(surfaces[j]));
            let k = choose|k: int| 0 <= k < kept.len() && kept[k] == surfaces[j];
            assert(kept[k].crtc == crtc);
        }
    }
    assert forall|crtc: u32| #[trigger] surface_map(kept).dom().contains(crtc) implies surface_map(
        kept,
    )[crtc] == still_driven(surface_map(surfaces), now)[crtc] by {
        lemma_surface_at(kept, crtc);
        let k = surface_at(kept, crtc).unwrap();
        assert(kept.contains(kept[k]));
        let j = choose|j: int| 0 <= j < surfaces.len() && surfaces[j] == kept[k];
        lemma_surface_map(surfaces, j);
    }
    assert(surface_map(kept) =~= still_driven(surface_map(surfaces), now));
}

/// The map of the surfaces without that of a connector on a CRTC is the map without
/// that CRTC, if the surface on it was that connector's.
pub proof fn lemma_without_surface_map(surfaces: Seq<OutputSurface>, connector: u32, crtc: u32)
    requires
        distinct_crtcs(surfaces),
    ensures
        surface_map(without_surface(surfaces, connector, crtc)) == unplugged(
            surface_map(surfaces),
            connector,
            crtc,
        ),
{
    let kept = without_surface(surfaces, connector, crtc);
    let wanted = unplugged(surface_map(surfaces), connector, crtc);
    lemma_without_surface(surfaces, connector, crtc);
    assert forall|other: u32| #[trigger]
        surface_map(kept).dom().contains(other) <==> wanted.dom().contains(other) by {
        lemma_surface_at(kept, other);
        lemma_surface_at(surfaces, other);
        lemma_surface_at(surfaces, crtc);
        if surface_at(kept, other) is Some {
            let k = surface_at(kept, other).unwrap();
            assert(kept.contains(kept[k]));
            let j = choose|j: int| 0 <= j < surfaces.len() && surfaces[j] == kept[k];
            lemma_surface_map(surfaces, j);
        }
        if wanted.dom().contains(other) {
            let j = surface_at(surfaces, other).unwrap();
            lemma_surface_map(surfaces, j);
            assert(surfaces.contains(surfaces[j]));
            assert(kept.contains(surfaces[j]));
            let k = choose|k: int| 0 <= k < kept.len() && kept[k] == surfaces[j];
            assert(kept[k].crtc == other);
        }
    }
    assert forall|other: u32| #[trigger] surface_map(kept).dom().contains(other) implies surface_map(
        kept,
    )[other] == wanted[other] by {
        lemma_surface_at(kept, other);
        let k = surface_at(kept, other).unwrap();
        assert(kept.contains(kept[k]));
        let j = choose|j: int| 0 <= j < surfaces.len() && surfaces[j] == kept[k];
        lemma_surface_map(surfaces, j);
    }
    assert(surface_map(kept) =~= wanted);
}

/// The map of the surfaces with a new one in place of any on its CRTC is the map with
/// the new surface for that CRTC.
pub proof fn lemma_inserted_map(surfaces: Seq<OutputSurface>, surface: OutputSurface)
    requires
        distinct_crtcs(surfaces),
    ensures
        surface_map(without_crtc(surfaces, surface.crtc).push(surface)) == surface_map(
            surfaces,
        ).insert(surface.crtc, surface),
{
    let rest = without_crtc(surfaces, surface.crtc);
    let now = rest.push(surface);
    let wanted = surface_map(surfaces).insert(surface.crtc, surface);
    lemma_without_crtc(surfaces, surface.crtc);
    assert forall|other: u32| #[trigger]
        surface_map(now).dom().contains(other) <==> wanted.dom().contains(other) by {
        lemma_surface_at(now, other);
        lemma_surface_at(surfaces, other);
        if surface_at(now, other) is Some && other != surface.crtc {
            let k = surface_at(now, other).unwrap();
            assert(k < rest.len());
            assert(rest[k] == now[k]);
            assert(rest.contains(rest[k]));
            let j = choose|j: int| 0 <= j < surfaces.len() && surfaces[j] == rest[k];
            assert(surfaces[j].crtc == other);
        }
        if other == surface.crtc {
            assert(now[rest.len() as int].crtc == other);
        } else if surface_at(surfaces, other) is Some {
            let j = surface_at(surfaces, other).unwrap();
            assert(surfaces.contains(surfaces[j]));
            assert(rest.contains(surfaces[j]));
            let k = choose|k: int| 0 <= k < rest.len() && rest[k] == surfaces[j];
            assert(now[k].crtc == other);
        }
    }
    assert forall|other: u32| #[trigger] surface_map(now).dom().contains(other) implies surface_map(
        now,
    )[other] == wanted[other] by {
        lemma_surface_at(now, other);
        let k = surface_at(now, other).unwrap();
        if k < rest.len() {
            assert(rest[k] == now[k]);
            assert(rest.contains(rest[k]));
            let j = choose|j: int| 0 <= j < surfaces.len() && surfaces[j] == rest[k];
            lemma_surface_map(surfaces, j);
        }
    }
    assert(surface_map(now) =~= wanted);
}

/// The surface once the display has taken its buffer.
pub open spec fn landed(surface: OutputSurface) -> OutputSurface {
    OutputSurface { frame: frame_after(surface.frame, SurfaceStep::Complete), ..surface }
}

/// `surface_at` finds the surface on a CRTC exactly where there is one.
pub proof fn lemma_surface_at(surfaces: Seq<OutputSurface>, crtc: u32)
    ensures
        match surface_at(surfaces, crtc) {
            Some(i) => 0 <= i < surfaces.len() && surfaces[i].crtc == crtc && forall|j: int|
                0 <= j < i ==> (#[trigger] surfaces[j]).crtc != crtc,
            None => forall|j: int| 0 <= j < surfaces.len() ==> (#[trigger] surfaces[j]).crtc != crtc,
        },
    decreases surfaces.len(),
{
    if surfaces.len() > 0 {
        let front = surfaces.drop_last();
        lemma_surface_at(front, crtc);
        assert(forall|j: int| 0 <= j < front.len() ==> front[j] == surfaces[j]);
        match surface_at(front, crtc) {
            Some(i) => {
                assert(surfaces[i] == front[i]);
                assert forall|j: int| 0 <= j < i implies (#[trigger] surfaces[j]).crtc != crtc by {
                    assert(surfaces[j] == front[j]);
                }
            },
            None => {
                assert forall|j: int| 0 <= j < surfaces.len() - 1 implies (
                #[trigger] surfaces[j]).crtc != crtc by {
                    assert(surfaces[j] == front[j]);
                }
            },
        }
    }
}

/// What is retained was there before, in the same order, and is all of it that is
/// still driven.
pub proof fn lemma_retained(surfaces: Seq<OutputSurface>, now: Seq<Assignment>)
    ensures
        forall|surface: OutputSurface| #[trigger]
            retained(surfaces, now).contains(surface) <==> surfaces.contains(surface) && driven(
                surface,
                now,
            ),
        distinct_crtcs(surfaces) ==> distinct_crtcs(retained(surfaces, now)),
        retained(surfaces, now).len() <= surfaces.len(),
    decreases surfaces.len(),
{
    let kept = retained(surfaces, now);
    if surfaces.len() > 0 {
        let front = surfaces.drop_last();
        let before = retained(front, now);
        lemma_retained(front, now);
        assert(forall|j: int| 0 <= j < front.len() ==> front[j] == surfaces[j]);
        assert forall|surface: OutputSurface| #[trigger]
            kept.contains(surface) <==> surfaces.contains(surface) && driven(surface, now) by {
            if kept.contains(surface) {
                let k = choose|k: int| 0 <= k < kept.len() && kept[k] == surface;
                if k < before.len() {
                    assert(before[k] == surface);
                    assert(before.contains(surface));
                    let j = choose|j: int| 0 <= j < front.len() && front[j] == surface;
                    assert(surfaces[j] == surface);
                } else {
                    assert(surfaces[surfaces.len() - 1] == surface);
                }
            }
            if surfaces.contains(surface) && driven(surface, now) {
                let j = choose|j: int| 0 <= j < surfaces.len() && surfaces[j] == surface;
                if j < front.len() {
                    assert(front[j] == surface);
                    assert(front.contains(surface));
                    assert(before.contains(surface));
                    let k = choose|k: int| 0 <= k < before.len() && before[k] == surface;
                    assert(kept[k] == surface);
                } else {
                    assert(kept[kept.len() - 1] == surface);
                }
            }
        }
        if distinct_crtcs(surfaces) {
            assert(distinct_crtcs(front));
            assert forall|i: int, j: int| 0 <= i < j < kept.len() implies (#[trigger] kept[i]).crtc
                != (#[trigger] kept[j]).crtc by {
                if j < before.len() {
                    assert(kept[i] == before[i] && kept[j] == before[j]);
                } else {
                    assert(kept[i] == before[i]);
                    assert(before.contains(before[i]));
                    assert(front.contains(kept[i]));
                    let k = choose|k: int| 0 <= k < front.len() && front[k] == kept[i];
                    assert(surfaces[k].crtc != surfaces[surfaces.len() - 1].crtc);
                }
            }
        }
    }
}

/// Without the surfaces on a CRTC the rest is as before, in the same order, and holds
/// none on that CRTC.
pub proof fn lemma_without_crtc(surfaces: Seq<OutputSurface>, crtc: u32)
    ensures
        forall|surface: OutputSurface| #[trigger]
            without_crtc(surfaces, crtc).contains(surface) <==> surfaces.contains(surface)
                && surface.crtc != crtc,
        distinct_crtcs(surfaces) ==> distinct_crtcs(without_crtc(surfaces, crtc)),
        without_crtc(surfaces, crtc).len() <= surfaces.len(),
    decreases surfaces.len(),
{
    let kept = without_crtc(surfaces, crtc);
    if surfaces.len() > 0 {
        let front = surfaces.drop_last();
        let before = without_crtc(front, crtc);
        lemma_without_crtc(front, crtc);
        assert(forall|j: int| 0 <= j < front.len() ==> front[j] == surfaces[j]);
        assert forall|surface: OutputSurface| #[trigger]
            kept.contains(surface) <==> surfaces.contains(surface) && surface.crtc != crtc by {
            if kept.contains(surface) {
                let k = choose|k: int| 0 <= k < kept.len() && kept[k] == surface;
                if k < before.len() {
                    assert(before[k] == surface);
                    assert(before.contains(surface));
                    let j = choose|j: int| 0 <= j < front.len() && front[j] == surface;
                    assert(surfaces[j] == surface);
                } else {
                    assert(surfaces[surfaces.len() - 1] == surface);
                }
            }
            if surfaces.contains(surface) && surface.crtc != crtc {
                let j = choose|j: int| 0 <= j < surfaces.len() && surfaces[j] == surface;
                if j < front.len() {
                    assert(front[j] == surface);
                    assert(front.contains(surface));
                    assert(before.contains(surface));
                    let k = choose|k: int| 0 <= k < before.len() && before[k] == surface;
                    assert(kept[k] == surface);
                } else {
                    assert(kept[kept.len() - 1] == surface);
                }
            }
        }
        if distinct_crtcs(surfaces) {
            assert(distinct_crtcs(front));
            assert forall|i: int, j: int| 0 <= i < j < kept.len() implies (#[trigger] kept[i]).crtc
                != (#[trigger] kept[j]).crtc by {
                if j < before.len() {
                    assert(kept[i] == before[i] && kept[j] == before[j]);
                } else {
                    assert(kept[i] == before[i]);
                    assert(before.contains(before[i]));
                    assert(front.contains(kept[i]));
                    let k = choose|k: int| 0 <= k < front.len() && front[k] == kept[i];
                    assert(surfaces[k].crtc != surfaces[surfaces.len() - 1].crtc);
                }
            }
        }
    }
}

/// Without the surface of a connector on a CRTC the rest is as before, in the same
/// order.
pub proof fn lemma_without_surface(surfaces: Seq<OutputSurface>, connector: u32, crtc: u32)
    ensures
        forall|surface: OutputSurface| #[trigger]
            without_surface(surfaces, connector, crtc).contains(surface) <==> surfaces.contains(
                surface,
            ) && !(surface.crtc == crtc && surface.connector == connector),
        distinct_crtcs(surfaces) ==> distinct_crtcs(without_surface(surfaces, connector, crtc)),
        without_surface(surfaces, connector, crtc).len() <= surfaces.len(),
    decreases surfaces.len(),
{
    let kept = without_surface(surfaces, connector, crtc);
    if surfaces.len() > 0 {
        let front = surfaces.drop_last();
        let before = without_surface(front, connector, crtc);
        lemma_without_surface(front, connector, crtc);
        assert(forall|j: int| 0 <= j < front.len() ==> front[j] == surfaces[j]);
        assert forall|surface: OutputSurface| #[trigger]
            kept.contains(surface) <==> surfaces.contains(surface) && !(surface.crtc == crtc
                && surface.connector == connector) by {
            if kept.contains(surface) {
                let k = choose|k: int| 0 <= k < kept.len() && kept[k] == surface;
                if k < before.len() {
                    assert(before[k] == surface);
                    assert(before.contains(surface));
                    let j = choose|j: int| 0 <= j < front.len() && front[j] == surface;
                    assert(surfaces[j] == surface);
                } else {
                    assert(surfaces[surfaces.len() - 1] == surface);
                }
            }
            if surfaces.contains(surface) && !(surface.crtc == crtc && surface.connector
                == connector) {
                let j = choose|j: int| 0 <= j < surfaces.len() && surfaces[j] == surface;
                if j < front.len() {
                    assert(front[j] == surface);
                    assert(front.contains(surface));
                    assert(before.contains(surface));
                    let k = choose|k: int| 0 <= k < before.len() && before[k] == surface;
                    assert(kept[k] == surface);
                } else {
                    assert(kept[kept.len() - 1] == surface);
                }
            }
        }
        if distinct_crtcs(surfaces) {
            assert(distinct_crtcs(front));
            assert forall|i: int, j: int| 0 <= i < j < kept.len() implies (#[trigger] kept[i]).crtc
                != (#[trigger] kept[j]).crtc by {
                if j < before.len() {
                    assert(kept[i] == before[i] && kept[j] == before[j]);
                } else {
                    assert(kept[i] == before[i]);
                    assert(before.contains(before[i]));
                    assert(front.contains(kept[i]));
                    let k = choose|k: int| 0 <= k < front.len() && front[k] == kept[i];
                    assert(surfaces[k].crtc != surfaces[surfaces.len() - 1].crtc);
                }
            }
        }
    }
}

/// Where one of the surfaces changes and stays on its CRTC, the map gives the changed
/// surface for that CRTC and is as it was for the others.
pub proof fn lemma_changed_surface_map(
    before: Seq<OutputSurface>,
    after: Seq<OutputSurface>,
    place: int,
)
    requires
        distinct_crtcs(before),
        0 <= place < before.len(),
        after.len() == before.len(),
        forall|k: int| 0 <= k < before.len() && k != place ==> #[trigger] after[k] == before[k],
        after[place].crtc == before[place].crtc,
    ensures
        surface_map(after) == surface_map(before).insert(before[place].crtc, after[place]),
{
    let wanted = surface_map(before).insert(before[place].crtc, after[place]);
    assert forall|i: int, j: int| 0 <= i < j < after.len() implies (#[trigger] after[i]).crtc != (
    #[trigger] after[j]).crtc by {
        assert(before[i].crtc != before[j].crtc);
        if i != place {
            assert(after[i] == before[i]);
        }
        if j != place {
            assert(after[j] == before[j]);
        }
    }
    assert forall|crtc: u32| #[trigger]
        surface_map(after).dom().contains(crtc) <==> wanted.dom().contains(crtc) by {
        lemma_surface_at(before, crtc);
        lemma_surface_at(after, crtc);
        if surface_at(after, crtc) is Some {
            let k = surface_at(after, crtc).unwrap();
            if k != place {
                assert(after[k] == before[k]);
                assert(before[k].crtc == crtc);
            }
        }
        if surface_at(before, crtc) is Some {
            let k = surface_at(before, crtc).unwrap();
            if k != place {
                assert(after[k] == before[k]);
            }
            assert(after[k].crtc == crtc);
        }
    }
    assert forall|crtc: u32| #[trigger] surface_map(after).dom().contains(crtc) implies surface_map(
        after,
    )[crtc] == wanted[crtc] by {
        lemma_surface_at(after, crtc);
        let k = surface_at(after, crtc).unwrap();
        lemma_surface_map(after, k);
        if k != place {
            assert(after[k] == before[k]);
            lemma_surface_map(before, k);
        }
    }
    assert(surface_map(after) =~= wanted);
}

/// Dropping the surface of a connector on a CRTC leaves fewer surfaces exactly if the
/// surface on that CRTC was that connector's.
pub proof fn lemma_removed_iff(surfaces: Seq<OutputSurface>, connector: u32, crtc: u32)
    requires
        distinct_crtcs(surfaces),
    ensures
        without_surface(surfaces, connector, crtc).len() < surfaces.len() <==> surface_map(
            surfaces,
        ).dom().contains(crtc) && surface_map(surfaces)[crtc].connector == connector,
        without_surface(surfaces, connector, crtc).len() <= surfaces.len(),
    decreases surfaces.len(),
{
    lemma_surface_at(surfaces, crtc);
    lemma_without_surface(surfaces, connector, crtc);
    if surfaces.len() > 0 {
        let front = surfaces.drop_last();
        assert(forall|j: int| 0 <= j < front.len() ==> front[j] == surfaces[j]);
        assert(distinct_crtcs(front));
        lemma_removed_iff(front, connector, crtc);
        lemma_surface_at(front, crtc);
        let last = surfaces.len() - 1;
        if surface_at(surfaces, crtc) is Some {
            lemma_surface_map(surfaces, surface_at(surfaces, crtc).unwrap());
        }
        if surfaces[last].crtc == crtc {
            lemma_surface_map(surfaces, last);
            assert forall|j: int| 0 <= j < front.len() implies (#[trigger] front[j]).crtc
                != crtc by {
                assert(surfaces[j].crtc != surfaces[last].crtc);
            }
        } else if surface_at(front, crtc) is Some {
            let j = surface_at(front, crtc).unwrap();
            lemma_surface_map(front, j);
            lemma_surface_map(surfaces, j);
        }
    }
}

impl View for Device {
    type V = Map<u32, OutputSurface>;

    /// The surface on each CRTC that has one.
    open spec fn view(&self) -> Map<u32, OutputSurface> {
        surface_map(self.surfaces@)
    }
}

impl Device {
    /// The scanner is sound, no CRTC has two surfaces, and each surface is sound, is of
    /// this device, and is that of a connector which drove its CRTC at the last scan.
    pub open spec fn wf(&self) -> bool {
        &&& self.drm_scanner.wf()
        &&& distinct_crtcs(self.surfaces@)
        &&& forall|i: int|
            0 <= i < self.surfaces@.len() ==> {
                &&& (#[trigger] self.surfaces@[i]).wf()
                &&& self.surfaces@[i].output.id.device == self.node
                &&& driven(self.surfaces@[i], self.drm_scanner.assignments@)
            }
    }

    /// Whether the device has a surface on the CRTC.
    pub open spec fn drives(&self, crtc: u32) -> bool {
        surface_at(self.surfaces@, crtc) is Some
    }

    /// A device that has been opened and has not been scanned yet.
    pub fn new(node: u64, render_node: u64, active: bool) -> (device: Device)
        ensures
            device.node == node,
            device.render_node == render_node,
            device.active == active,
            device.surfaces@ == Seq::<OutputSurface>::empty(),
            device.drm_scanner.assignments@ == Seq::<Assignment>::empty(),
            device.wf(),
    {
        Device {
            node,
            render_node,
            active,
            surfaces: Vec::new(),
            drm_scanner: ConnectorScanner::new(),
        }
    }

    /// Where the surface on the CRTC is.
    pub fn find_surface(&self, crtc: u32) -> (place: Option<usize>)
        ensures
            match place {
                Some(i) => surface_at(self.surfaces@, crtc) == Some(i as int) && i
                    < self.surfaces@.len() && self.surfaces@[i as int].crtc == crtc,
                None => surface_at(self.surfaces@, crtc) is None,
            },
    {
        let mut found: Option<usize> = None;
        let mut i: usize = 0;
        while i < self.surfaces.len()
            invariant
                0 <= i <= self.surfaces@.len(),
                match found {
                    Some(k) => surface_at(self.surfaces@.take(i as int), crtc) == Some(k as int)
                        && k < i && self.surfaces@[k as int].crtc == crtc,
                    None => surface_at(self.surfaces@.take(i as int), crtc) is None,
                },
            decreases self.surfaces@.len() - i,
        {
            proof {
                assert(self.surfaces@.take(i + 1).drop_last() =~= self.surfaces@.take(i as int));
            }
            if found.is_none() && self.surfaces[i].crtc == crtc {
                found = Some(i);
            }
            i += 1;
        }
        proof {
            assert(self.surfaces@.take(i as int) =~= self.surfaces@);
        }
        found
    }

    /// The CRTCs that have a surface.
    pub fn crtcs(&self) -> (crtcs: Vec<u32>)
        ensures
            crtcs@ == crtcs_of(self.surfaces@),
    {
        let mut crtcs: Vec<u32> = Vec::new();
        let mut i: usize = 0;
        while i < self.surfaces.len()
            invariant
                0 <= i <= self.surfaces@.len(),
                crtcs@ == crtcs_of(self.surfaces@.take(i as int)),
            decreases self.surfaces@.len() - i,
        {
            crtcs.push(self.surfaces[i].crtc);
            proof {
                assert(crtcs@ =~= crtcs_of(self.surfaces@.take(i + 1)));
            }
            i += 1;
        }
        proof {
            assert(self.surfaces@.take(i as int) =~= self.surfaces@);
        }
        crtcs
    }

    /// Scans the connectors: compares the reading with the last one, remembers it, and
    /// drops each surface whose connector no longer drives its CRTC. Returns what
    /// changed.
    pub fn scan_connectors(&mut self, snapshot: &Vec<ConnectorReading>) -> (events: Vec<ScanEvent>)
        requires
            old(self).wf(),
        ensures
            final(self).wf(),
            final(self).node == old(self).node,
            final(self).render_node == old(self).render_node,
            final(self).active == old(self).active,
            final(self).drm_scanner.assignments@ == drivers(snapshot@),
            final(self).surfaces@ == retained(old(self).surfaces@, drivers(snapshot@)),
            final(self)@ == still_driven(old(self)@, drivers(snapshot@)),
            events@ == scan_events(old(self).drm_scanner.assignments@, drivers(snapshot@)),
    {
        let events = self.drm_scanner.scan_connectors(snapshot);
        let ghost all = self.surfaces@;
        let ghost now = self.drm_scanner.assignments@;
        let ghost mut done: int = 0;
        let mut i: usize = 0;
        while i < self.surfaces.len()
            invariant
                0 <= done <= all.len(),
                0 <= i <= self.surfaces@.len(),
                self.drm_scanner.assignments@ == now,
                self.node == old(self).node,
                self.render_node == old(self).render_node,
                self.active == old(self).active,
                i == retained(all.take(done), now).len(),
                self.surfaces@ == retained(all.take(done), now) + all.skip(done),
            decreases all.len() - done,
        {
            proof {
                assert(all.take(done + 1).drop_last() =~= all.take(done));
                assert(all.take(done + 1).last() == all[done]);
                assert(self.surfaces@[i as int] == all.skip(done)[0]);
            }
            let keep = self.drm_scanner.crtc_for_connector(self.surfaces[i].connector) == Some(
                self.surfaces[i].crtc,
            );
            if keep {
                proof {
                    assert(retained(all.take(done + 1), now) + all.skip(done + 1)
                        =~= self.surfaces@);
                }
                i += 1;
            } else {
                self.surfaces.remove(i);
                proof {
                    assert(retained(all.take(done + 1), now) + all.skip(done + 1)
                        =~= self.surfaces@);
                }
            }
            proof {
                done = done + 1;
            }
        }
        proof {
            assert(all.skip(done).len() == 0);
            assert(all.take(done) =~= all);
            assert(self.surfaces@ =~= retained(all, now));
            lemma_retained(all, now);
            lemma_retained_map(all, now);
            assert forall|k: int| 0 <= k < self.surfaces@.len() implies {
                &&& (#[trigger] self.surfaces@[k]).wf()
                &&& self.surfaces@[k].output.id.device == self.node
                &&& driven(self.surfaces@[k], self.drm_scanner.assignments@)
            } by {
                let surface = self.surfaces@[k];
                assert(retained(all, now).contains(surface));
                let j = choose|j: int| 0 <= j < all.len() && all[j] == surface;
                assert(old(self).surfaces@[j].wf());
            }
        }
        events
    }

    /// Drops the surface of the connector on the CRTC, if there is one. Returns whether
    /// there was.
    pub fn remove_surface(&mut self, connector: u32, crtc: u32) -> (removed: bool)
        requires
            old(self).wf(),
        ensures
            final(self).wf(),
            final(self).node == old(self).node,
            final(self).render_node == old(self).render_node,
            final(self).active == old(self).active,
            final(self).drm_scanner == old(self).drm_scanner,
            final(self).surfaces@ == without_surface(old(self).surfaces@, connector, crtc),
            final(self)@ == unplugged(old(self)@, connector, crtc),
            removed == (final(self).surfaces@.len() < old(self).surfaces@.len()),
            removed == (old(self)@.dom().contains(crtc) && old(self)@[crtc].connector == connector),
    {
        let ghost all = self.surfaces@;
        let ghost mut done: int = 0;
        let mut removed = false;
        let mut i: usize = 0;
        while i < self.surfaces.len()
            invariant
                0 <= done <= all.len(),
                0 <= i <= self.surfaces@.len(),
                self.drm_scanner == old(self).drm_scanner,
                self.node == old(self).node,
                self.render_node == old(self).render_node,
                self.active == old(self).active,
                i == without_surface(all.take(done), connector, crtc).len(),
                self.surfaces@ == without_surface(all.take(done), connector, crtc) + all.skip(
                    done,
                ),
                removed == (i < done),
            decreases all.len() - done,
        {
            proof {
                assert(all.take(done + 1).drop_last() =~= all.take(done));
                assert(all.take(done + 1).last() == all[done]);
                assert(self.surfaces@[i as int] == all.skip(done)[0]);
            }
            if self.surfaces[i].crtc == crtc && self.surfaces[i].connector == connector {
                self.surfaces.remove(i);
                removed = true;
                proof {
                    assert(without_surface(all.take(done + 1), connector, crtc) + all.skip(
                        done + 1,
                    ) =~= self.surfaces@);
                    lemma_without_surface(all.take(done), connector, crtc);
                }
            } else {
                proof {
                    assert(without_surface(all.take(done + 1), connector, crtc) + all.skip(
                        done + 1,
                    ) =~= self.surfaces@);
                    lemma_without_surface(all.take(done), connector, crtc);
                }
                i += 1;
            }
            proof {
                done = done + 1;
            }
        }
        proof {
            assert(all.skip(done).len() == 0);
            assert(all.take(done) =~= all);
            assert(self.surfaces@ =~= without_surface(all, connector, crtc));
            lemma_without_surface(all, connector, crtc);
            lemma_without_surface_map(all, connector, crtc);
            lemma_removed_iff(all, connector, crtc);
            assert forall|k: int| 0 <= k < self.surfaces@.len() implies {
                &&& (#[trigger] self.surfaces@[k]).wf()
                &&& self.surfaces@[k].output.id.device == self.node
                &&& driven(self.surfaces@[k], self.drm_scanner.assignments@)
            } by {
                let surface = self.surfaces@[k];
                assert(without_surface(all, connector, crtc).contains(surface));
                let j = choose|j: int| 0 <= j < all.len() && all[j] == surface;
                assert(old(self).surfaces@[j].wf());
            }
        }
        removed
    }

    /// Takes a new surface in, in place of any that was on its CRTC.
    pub fn insert_surface(&mut self, surface: OutputSurface)
        requires
            old(self).wf(),
            surface.wf(),
            surface.output.id.device == old(self).node,
            driven(surface, old(self).drm_scanner.assignments@),
        ensures
            final(self).wf(),
            final(self).node == old(self).node,
            final(self).render_node == old(self).render_node,
            final(self).active == old(self).active,
            final(self).drm_scanner == old(self).drm_scanner,
            final(self).surfaces@ == without_crtc(old(self).surfaces@, surface.crtc).push(surface),
            final(self)@ == old(self)@.insert(surface.crtc, surface),
    {
        let ghost all = self.surfaces@;
        let ghost mut done: int = 0;
        let crtc = surface.crtc;
        let mut i: usize = 0;
        while i < self.surfaces.len()
            invariant
                0 <= done <= all.len(),
                0 <= i <= self.surfaces@.len(),
                self.drm_scanner == old(self).drm_scanner,
                self.node == old(self).node,
                self.render_node == old(self).render_node,
                self.active == old(self).active,
                i == without_crtc(all.take(done), crtc).len(),
                self.surfaces@ == without_crtc(all.take(done), crtc) + all.skip(done),
            decreases all.len() - done,
        {
            proof {
                assert(all.take(done + 1).drop_last() =~= all.take(done));
                assert(all.take(done + 1).last() == all[done]);
                assert(self.surfaces@[i as int] == all.skip(done)[0]);
            }
            if self.surfaces[i].crtc == crtc {
                self.surfaces.remove(i);
                proof {
                    assert(without_crtc(all.take(done + 1), crtc) + all.skip(done + 1)
                        =~= self.surfaces@);
                }
            } else {
                proof {
                    assert(without_crtc(all.take(done + 1), crtc) + all.skip(done + 1)
                        =~= self.surfaces@);
                }
                i += 1;
            }
            proof {
                done = done + 1;
            }
        }
        proof {
            assert(all.skip(done).len() == 0);
            assert(all.take(done) =~= all);
            assert(self.surfaces@ =~= without_crtc(all, crtc));
            lemma_without_crtc(all, crtc);
            lemma_inserted_map(all, surface);
        }
        let ghost rest = self.surfaces@;
        self.surfaces.push(surface);
        proof {
            let now = self.surfaces@;
            assert forall|k: int| 0 <= k < now.len() implies {
                &&& (#[trigger] now[k]).wf()
                &&& now[k].output.id.device == self.node
                &&& driven(now[k], self.drm_scanner.assignments@)
            } by {
                if k < rest.len() {
                    assert(now[k] == rest[k]);
                    assert(rest.contains(rest[k]));
                    let j = choose|j: int| 0 <= j < all.len() && all[j] == rest[k];
                    assert(old(self).surfaces@[j].wf());
                }
            }
            assert forall|a: int, b: int| 0 <= a < b < now.len() implies (#[trigger] now[a]).crtc
                != (#[trigger] now[b]).crtc by {
                if b < rest.len() {
                    assert(now[a] == rest[a] && now[b] == rest[b]);
                } else {
                    assert(now[a] == rest[a]);
                    assert(rest.contains(rest[a]));
                }
            }
        }
    }

    /// The display has taken the buffer of the surface at `place`, and the next frame is
    /// produced from `input`: the surface first has no buffer in flight, then goes on as
    /// `OutputSurface::produce` says. The other surfaces stay as they are.
    pub fn present(&mut self, place: usize, space: &Space, input: &FrameInput) -> (result: Result<
        Frame,
        Error,
    >)
        requires
            old(self).wf(),
            place < old(self).surfaces@.len(),
        ensures
            final(self).wf(),
            final(self).node == old(self).node,
            final(self).render_node == old(self).render_node,
            final(self).active == old(self).active,
            final(self).drm_scanner == old(self).drm_scanner,
            final(self).surfaces@.len() == old(self).surfaces@.len(),
            final(self)@ == old(self)@.insert(
                old(self).surfaces@[place as int].crtc,
                final(self).surfaces@[place as int],
            ),
            crtcs_of(final(self).surfaces@) == crtcs_of(old(self).surfaces@),
            forall|k: int|
                0 <= k < old(self).surfaces@.len() && k != place
                    ==> #[trigger] final(self).surfaces@[k] == old(self).surfaces@[k],
            final(self).surfaces@[place as int].after_frame(
                landed(old(self).surfaces@[place as int]),
                *space,
                *input,
            ),
            result is Ok <==> input.acquired,
            result matches Err(error) ==> error == Error::BufferAcquireFailure,
            result matches Ok(frame) ==> final(self).surfaces@[place as int].made_frame(
                frame,
                landed(old(self).surfaces@[place as int]),
                *space,
                *input,
            ),
    {
        self.surfaces[place].frame_submitted();
        let result = self.surfaces[place].produce(space, input);
        proof {
            let before = old(self).surfaces@;
            let now = self.surfaces@;
            lemma_changed_surface_map(before, now, place as int);
            assert(crtcs_of(now) =~= crtcs_of(before)) by {
                assert forall|k: int| 0 <= k < now.len() implies now[k].crtc == before[k].crtc by {
                    if k != place {
                        assert(now[k] == before[k]);
                    }
                }
            }
            assert forall|k: int| 0 <= k < now.len() implies {
                &&& (#[trigger] now[k]).wf()
                &&& now[k].output.id.device == self.node
                &&& driven(now[k], self.drm_scanner.assignments@)
            } by {
                assert(before[k].wf());
                if k != place {
                    assert(now[k] == before[k]);
                }
            }
            assert forall|a: int, b: int| 0 <= a < b < now.len() implies (#[trigger] now[a]).crtc
                != (#[trigger] now[b]).crtc by {
                assert(before[a].crtc != before[b].crtc);
                assert(crtcs_of(now)[a] == crtcs_of(before)[a]);
                assert(crtcs_of(now)[b] == crtcs_of(before)[b]);
            }
        }
        result
    }

    /// Suspends the mode-setting handle.
    pub fn pause(&mut self)
        ensures
            final(self).active == false,
            final(self).node == old(self).node,
            final(self).render_node == old(self).render_node,
            final(self).surfaces == old(self).surfaces,
            final(self).drm_scanner == old(self).drm_scanner,
    {
        self.active = false;
    }

    /// Brings the mode-setting handle back to life and drops the buffers of every
    /// surface, whatever state the pause left them in.
    pub fn activate(&mut self)
        requires
            old(self).wf(),
        ensures
            final(self).wf(),
            final(self).active == true,
            final(self).node == old(self).node,
            final(self).render_node == old(self).render_node,
            final(self).drm_scanner == old(self).drm_scanner,
            all_reset(old(self).surfaces@, final(self).surfaces@),
    {
        self.active = true;
        let mut i: usize = 0;
        while i < self.surfaces.len()
            invariant
                0 <= i <= self.surfaces@.len(),
                self.active == true,
                self.node == old(self).node,
                self.render_node == old(self).render_node,
                self.drm_scanner == old(self).drm_scanner,
                self.surfaces@.len() == old(self).surfaces@.len(),
                forall|k: int|
                    0 <= k < i ==> (#[trigger] self.surfaces@[k]) == (OutputSurface {
                        frame: FrameState::Idle,
                        ..old(self).surfaces@[k]
                    }),
                forall|k: int|
                    i <= k < self.surfaces@.len() ==> (#[trigger] self.surfaces@[k]) == old(
                        self,
                    ).surfaces@[k],
            decreases self.surfaces@.len() - i,
        {
            self.surfaces[i].reset_buffers();
            i += 1;
        }
        proof {
            assert forall|k: int| 0 <= k < self.surfaces@.len() implies {
                &&& (#[trigger] self.surfaces@[k]).wf()
                &&& self.surfaces@[k].output.id.device == self.node
                &&& driven(self.surfaces@[k], self.drm_scanner.assignments@)
            } by {
                assert(old(self).surfaces@[k].wf());
            }
            assert forall|a: int, b: int| 0 <= a < b < self.surfaces@.len() implies (
            #[trigger] self.surfaces@[a]).crtc != (#[trigger] self.surfaces@[b]).crtc by {
                assert(old(self).surfaces@[a].crtc != old(self).surfaces@[b].crtc);
            }
        }
    }
}

} // verus!
