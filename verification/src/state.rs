//! The compositor state: the layout of the outputs and the data of the backend.

use crate::output::{Output, OutputId, Point};
use vstd::prelude::*;
use vstd::string::StringExecFns;

verus! {

/// Why the compositor state could not be built.
#[derive(Clone, Copy, Debug, PartialEq, Eq, Structural)]
pub enum Error {
    /// The seat refused a keyboard.
    KeyboardAddFailure,
}

impl Error {
    /// The text shown for this error.
    pub open spec fn message_spec(self) -> Seq<char> {
        "Failed to add keyboard"@
    }

    /// The text shown for this error.
    pub fn message(&self) -> (text: String)
        ensures
            text@ == self.message_spec(),
    {
        String::from_str("Failed to add keyboard")
    }
}

/// An output and the region it takes in the layout.
#[derive(Clone, Copy, Debug, PartialEq, Eq, Structural)]
pub struct MappedOutput {
    pub id: OutputId,
    pub x: i32,
    pub y: i32,
    pub width: i32,
    pub height: i32,
}

impl MappedOutput {
    /// Whether the point lies in the region: on or after its left and upper edge, before
    /// its right and lower edge.
    pub open spec fn contains(self, point: Point) -> bool {
        &&& self.x <= point.x < self.x + self.width
        &&& self.y <= point.y < self.y + self.height
    }

    /// Whether the point lies in the region.
    pub fn has_point(&self, point: Point) -> (inside: bool)
        ensures
            inside == self.contains(point),
    {
        let px: i64 = point.x as i64;
        let py: i64 = point.y as i64;
        self.x as i64 <= px && px < self.x as i64 + self.width as i64 && self.y as i64 <= py && py
            < self.y as i64 + self.height as i64
    }
}

/// The widths of the regions, added up.
pub open spec fn total_width(outputs: Seq<MappedOutput>) -> int
    decreases outputs.len(),
{
    if outputs.len() == 0 {
        0
    } else {
        total_width(outputs.drop_last()) + outputs.last().width
    }
}

/// Where the next output goes: as far right as the widths of all mapped outputs add up
/// to, and no further than a coordinate can be.
pub open spec fn right_edge(outputs: Seq<MappedOutput>) -> int {
    if total_width(outputs) > i32::MAX {
        i32::MAX as int
    } else {
        total_width(outputs)
    }
}

/// Where the output is in the list; the first place where it is there more than once.
pub open spec fn position(outputs: Seq<MappedOutput>, id: OutputId) -> Option<int>
    decreases outputs.len(),
{
    if outputs.len() == 0 {
        None
    } else {
        match position(outputs.drop_last(), id) {
            Some(i) => Some(i),
            None => if outputs.last().id == id {
                Some(outputs.len() - 1)
            } else {
                None
            },
        }
    }
}

/// The layout with the output at the given region: in its old place if it was mapped,
/// behind the others if not.
pub open spec fn with_output(outputs: Seq<MappedOutput>, entry: MappedOutput) -> Seq<
    MappedOutput,
> {
    match position(outputs, entry.id) {
        Some(i) => outputs.update(i, entry),
        None => outputs.push(entry),
    }
}

/// The layout without the outputs of one device, but for those on the given CRTCs.
pub open spec fn kept_of(outputs: Seq<MappedOutput>, device: u64, crtcs: Seq<u32>) -> Seq<
    MappedOutput,
>
    decreases outputs.len(),
{
    if outputs.len() == 0 {
        Seq::empty()
    } else {
        let before = kept_of(outputs.drop_last(), device, crtcs);
        let entry = outputs.last();
        if entry.id.device != device || crtcs.contains(entry.id.crtc) {
            before.push(entry)
        } else {
            before
        }
    }
}

/// No region has a negative side.
pub open spec fn sized(outputs: Seq<MappedOutput>) -> bool {
    forall|i: int|
        0 <= i < outputs.len() ==> (#[trigger] outputs[i]).width >= 0 && outputs[i].height >= 0
}

/// No output is in the layout twice.
pub open spec fn distinct_outputs(outputs: Seq<MappedOutput>) -> bool {
    forall|i: int, j: int|
        0 <= i < j < outputs.len() ==> (#[trigger] outputs[i]).id != (#[trigger] outputs[j]).id
}

/// The widths of regions without a negative side add up to no less than those of a part
/// of them.
pub proof fn lemma_total_width_grows(outputs: Seq<MappedOutput>, n: int)
    requires
        sized(outputs),
        0 <= n <= outputs.len(),
    ensures
        0 <= total_width(outputs.take(n)) <= total_width(outputs),
    decreases outputs.len() - n,
{
    if n == outputs.len() {
        assert(outputs.take(n) =~= outputs);
        lemma_total_width_positive(outputs);
    } else {
        lemma_total_width_grows(outputs, n + 1);
        assert(outputs.take(n + 1).drop_last() =~= outputs.take(n));
        assert(outputs.take(n + 1).last() == outputs[n]);
        lemma_total_width_positive(outputs.take(n));
    }
}

/// The widths of regions without a negative side add up to no less than zero.
proof fn lemma_total_width_positive(outputs: Seq<MappedOutput>)
    requires
        sized(outputs),
    ensures
        0 <= total_width(outputs),
    decreases outputs.len(),
{
    if outputs.len() > 0 {
        assert(forall|i: int|
            0 <= i < outputs.len() - 1 ==> outputs.drop_last()[i] == outputs[i]);
        lemma_total_width_positive(outputs.drop_last());
        assert(outputs[outputs.len() - 1].width >= 0);
    }
}

/// `position` finds an output exactly where it is in the list.
pub proof fn lemma_position(outputs: Seq<MappedOutput>, id: OutputId)
    ensures
        match position(outputs, id) {
            Some(i) => 0 <= i < outputs.len() && outputs[i].id == id && forall|j: int|
                0 <= j < i ==> (#[trigger] outputs[j]).id != id,
            None => forall|j: int| 0 <= j < outputs.len() ==> (#[trigger] outputs[j]).id != id,
        },
    decreases outputs.len(),
{
    if outputs.len() > 0 {
        let front = outputs.drop_last();
        lemma_position(front, id);
        assert(forall|j: int| 0 <= j < front.len() ==> front[j] == outputs[j]);
        match position(front, id) {
            Some(i) => {
                assert(outputs[i] == front[i]);
                assert forall|j: int| 0 <= j < i implies (#[trigger] outputs[j]).id != id by {
                    assert(outputs[j] == front[j]);
                }
            },
            None => {
                assert forall|j: int| 0 <= j < outputs.len() - 1 implies (
                #[trigger] outputs[j]).id != id by {
                    assert(outputs[j] == front[j]);
                }
            },
        }
    }
}

/// What is kept of a layout was in it, in the same order, and is all of it that is of
/// another device or on one of the CRTCs.
pub proof fn lemma_kept_of(outputs: Seq<MappedOutput>, device: u64, crtcs: Seq<u32>)
    ensures
        forall|entry: MappedOutput| #[trigger]
            kept_of(outputs, device, crtcs).contains(entry) <==> outputs.contains(entry) && (
            entry.id.device != device || crtcs.contains(entry.id.crtc)),
        sized(outputs) ==> sized(kept_of(outputs, device, crtcs)),
        distinct_outputs(outputs) ==> distinct_outputs(kept_of(outputs, device, crtcs)),
        kept_of(outputs, device, crtcs).len() <= outputs.len(),
    decreases outputs.len(),
{
    let kept = kept_of(outputs, device, crtcs);
    if outputs.len() > 0 {
        let front = outputs.drop_last();
        let before = kept_of(front, device, crtcs);
        let last = outputs.last();
        lemma_kept_of(front, device, crtcs);
        assert(forall|j: int| 0 <= j < front.len() ==> front[j] == outputs[j]);
        assert forall|entry: MappedOutput| #[trigger]
            kept.contains(entry) <==> outputs.contains(entry) && (entry.id.device != device
                || crtcs.contains(entry.id.crtc)) by {
            if kept.contains(entry) {
                let k = choose|k: int| 0 <= k < kept.len() && kept[k] == entry;
                if k < before.len() {
                    assert(before[k] == entry);
                    assert(before.contains(entry));
                    let j = choose|j: int| 0 <= j < front.len() && front[j] == entry;
                    assert(outputs[j] == entry);
                } else {
                    assert(outputs[outputs.len() - 1] == entry);
                }
            }
            if outputs.contains(entry) && (entry.id.device != device || crtcs.contains(
                entry.id.crtc,
            )) {
                let j = choose|j: int| 0 <= j < outputs.len() && outputs[j] == entry;
                if j < front.len() {
                    assert(front[j] == entry);
                    assert(front.contains(entry));
                    assert(before.contains(entry));
                    let k = choose|k: int| 0 <= k < before.len() && before[k] == entry;
                    assert(kept[k] == entry);
                } else {
                    assert(kept[kept.len() - 1] == entry);
                }
            }
        }
        if sized(outputs) {
            assert(sized(front));
            assert forall|i: int| 0 <= i < kept.len() implies (#[trigger] kept[i]).width >= 0
                && kept[i].height >= 0 by {
                if i < before.len() {
                    assert(kept[i] == before[i]);
                } else {
                    assert(kept[i] == outputs[outputs.len() - 1]);
                }
            }
        }
        if distinct_outputs(outputs) {
            assert(distinct_outputs(front));
            assert forall|i: int, j: int| 0 <= i < j < kept.len() implies (#[trigger] kept[i]).id
                != (#[trigger] kept[j]).id by {
                if j < before.len() {
                    assert(kept[i] == before[i] && kept[j] == before[j]);
                } else {
                    assert(kept[i] == before[i]);
                    assert(before.contains(before[i]));
                    assert(front.contains(kept[i]));
                    let k = choose|k: int| 0 <= k < front.len() && front[k] == kept[i];
                    assert(outputs[k].id != outputs[outputs.len() - 1].id);
                }
            }
        }
    }
}

/// What is kept of a layout maps the outputs that were mapped and are of another device
/// or on one of the CRTCs.
pub proof fn lemma_kept_maps(
    outputs: Seq<MappedOutput>,
    device: u64,
    crtcs: Seq<u32>,
    id: OutputId,
)
    ensures
        position(kept_of(outputs, device, crtcs), id) is Some <==> position(outputs, id) is Some
            && (id.device != device || crtcs.contains(id.crtc)),
{
    let kept = kept_of(outputs, device, crtcs);
    lemma_position(outputs, id);
    lemma_position(kept, id);
    lemma_kept_of(outputs, device, crtcs);
    if position(kept, id) is Some {
        let k = position(kept, id).unwrap();
        assert(kept.contains(kept[k]));
        assert(outputs.contains(kept[k]));
        let j = choose|j: int| 0 <= j < outputs.len() && outputs[j] == kept[k];
        assert(outputs[j].id == id);
    }
    if position(outputs, id) is Some && (id.device != device || crtcs.contains(id.crtc)) {
        let j = position(outputs, id).unwrap();
        assert(outputs.contains(outputs[j]));
        assert(kept.contains(outputs[j]));
        let k = choose|k: int| 0 <= k < kept.len() && kept[k] == outputs[j];
        assert(kept[k].id == id);
    }
}

/// A layout with one more output maps that one and those that were mapped.
pub proof fn lemma_with_output_maps(outputs: Seq<MappedOutput>, entry: MappedOutput, id: OutputId)
    ensures
        position(with_output(outputs, entry), id) is Some <==> id == entry.id || position(
            outputs,
            id,
        ) is Some,
{
    let now = with_output(outputs, entry);
    lemma_position(outputs, id);
    lemma_position(outputs, entry.id);
    lemma_position(now, id);
    match position(outputs, entry.id) {
        Some(i) => {
            if position(now, id) is Some {
                let k = position(now, id).unwrap();
                if k != i {
                    assert(outputs[k].id == id);
                }
            }
            if id == entry.id {
                assert(now[i].id == id);
            } else if position(outputs, id) is Some {
                let k = position(outputs, id).unwrap();
                assert(now[k].id == id);
            }
        },
        None => {
            if position(now, id) is Some {
                let k = position(now, id).unwrap();
                if k < outputs.len() {
                    assert(outputs[k].id == id);
                }
            }
            if id == entry.id {
                assert(now[outputs.len() as int].id == id);
            } else if position(outputs, id) is Some {
                let k = position(outputs, id).unwrap();
                assert(now[k].id == id);
            }
        },
    }
}

/// The layout as a map from each output to its region.
pub open spec fn regions(outputs: Seq<MappedOutput>) -> Map<OutputId, MappedOutput> {
    Map::new(|id: OutputId| position(outputs, id) is Some, |id: OutputId|
        outputs[position(outputs, id).unwrap()])
}

/// A layout with one more output gives that output its region and every other output
/// the region it had.
pub proof fn lemma_with_output_regions(outputs: Seq<MappedOutput>, entry: MappedOutput)
    ensures
        regions(with_output(outputs, entry)) == regions(outputs).insert(entry.id, entry),
{
    let now = with_output(outputs, entry);
    lemma_position(outputs, entry.id);
    assert forall|id: OutputId|
        regions(now).dom().contains(id) <==> #[trigger] regions(outputs).insert(
            entry.id,
            entry,
        ).dom().contains(id) by {
        lemma_with_output_maps(outputs, entry, id);
    }
    assert forall|id: OutputId| #[trigger] regions(now).dom().contains(id) implies regions(now)[id]
        == regions(outputs).insert(entry.id, entry)[id] by {
        lemma_with_output_maps(outputs, entry, id);
        lemma_position(outputs, id);
        lemma_position(now, id);
        let found = position(now, id).unwrap();
        match position(outputs, entry.id) {
            Some(i) => {
                if id == entry.id {
                    if found < i {
                        assert(outputs[found].id != entry.id);
                    }
                    if i < found {
                        assert(now[i].id != id);
                    }
                } else {
                    let was = position(outputs, id).unwrap();
                    assert(found != i);
                    assert(outputs[found].id == id);
                    if found < was {
                        assert(outputs[found].id != id);
                    }
                    if was < found {
                        assert(now[was].id != id);
                    }
                }
            },
            None => {
                if id == entry.id {
                    if found < outputs.len() {
                        assert(outputs[found].id != entry.id);
                    }
                } else {
                    let was = position(outputs, id).unwrap();
                    assert(found < outputs.len());
                    assert(outputs[found].id == id);
                    if found < was {
                        assert(outputs[found].id != id);
                    }
                    if was < found {
                        assert(now[was].id != id);
                    }
                }
            },
        }
    }
    assert(regions(now) =~= regions(outputs).insert(entry.id, entry));
}

/// What is kept of a layout in which no output is twice gives each output that is of
/// another device or on one of the CRTCs the region it had, and the others none.
pub proof fn lemma_kept_regions(outputs: Seq<MappedOutput>, device: u64, crtcs: Seq<u32>)
    requires
        distinct_outputs(outputs),
    ensures
        regions(kept_of(outputs, device, crtcs)) == regions(outputs).restrict(
            Set::new(|id: OutputId| id.device != device || crtcs.contains(id.crtc)),
        ),
{
    let kept = kept_of(outputs, device, crtcs);
    let stay = Set::new(|id: OutputId| id.device != device || crtcs.contains(id.crtc));
    lemma_kept_of(outputs, device, crtcs);
    assert forall|id: OutputId|
        regions(kept).dom().contains(id) <==> #[trigger] regions(outputs).restrict(
            stay,
        ).dom().contains(id) by {
        lemma_kept_maps(outputs, device, crtcs, id);
    }
    assert forall|id: OutputId| #[trigger] regions(kept).dom().contains(id) implies regions(
        kept,
    )[id] == regions(outputs).restrict(stay)[id] by {
        lemma_kept_maps(outputs, device, crtcs, id);
        lemma_position(outputs, id);
        lemma_position(kept, id);
        let found = position(kept, id).unwrap();
        let was = position(outputs, id).unwrap();
        assert(kept.contains(kept[found]));
        assert(outputs.contains(kept[found]));
        let j = choose|j: int| 0 <= j < outputs.len() && outputs[j] == kept[found];
        if j < was {
            assert(outputs[j].id != outputs[was].id);
        }
        if was < j {
            assert(outputs[was].id != outputs[j].id);
        }
    }
    assert(regions(kept) =~= regions(outputs).restrict(stay));
}

/// The layout of the outputs: which region of the plane each takes.
#[derive(Clone, Debug, PartialEq, Eq)]
pub struct Space {
    pub outputs: Vec<MappedOutput>,
}

impl View for Space {
    type V = Map<OutputId, MappedOutput>;

    /// The region of each output that is mapped.
    open spec fn view(&self) -> Map<OutputId, MappedOutput> {
        regions(self.outputs@)
    }
}

impl Space {
    /// No region has a negative side and no output is there twice.
    pub open spec fn wf(&self) -> bool {
        &&& sized(self.outputs@)
        &&& distinct_outputs(self.outputs@)
    }

    /// Whether the output is in the layout.
    pub open spec fn maps(&self, id: OutputId) -> bool {
        position(self.outputs@, id) is Some
    }

    /// Whether the output is in the layout and the point lies in its region.
    pub open spec fn output_has_point(&self, id: OutputId, point: Point) -> bool {
        exists|i: int|
            0 <= i < self.outputs@.len() && (#[trigger] self.outputs@[i]).id == id
                && self.outputs@[i].contains(point)
    }

    /// A layout without outputs.
    pub fn new() -> (space: Space)
        ensures
            space.outputs@ == Seq::<MappedOutput>::empty(),
            space.wf(),
    {
        Space { outputs: Vec::new() }
    }

    /// Where the output is in the layout.
    pub fn find(&self, id: OutputId) -> (place: Option<usize>)
        ensures
            match place {
                Some(i) => position(self.outputs@, id) == Some(i as int) && i < self.outputs@.len(),
                None => position(self.outputs@, id) is None,
            },
    {
        let mut found: Option<usize> = None;
        let mut i: usize = 0;
        while i < self.outputs.len()
            invariant
                0 <= i <= self.outputs@.len(),
                match found {
                    Some(k) => position(self.outputs@.take(i as int), id) == Some(k as int) && k
                        < i,
                    None => position(self.outputs@.take(i as int), id) is None,
                },
            decreases self.outputs@.len() - i,
        {
            proof {
                assert(self.outputs@.take(i + 1).drop_last() =~= self.outputs@.take(i as int));
            }
            if found.is_none() && self.outputs[i].id == id {
                found = Some(i);
            }
            i += 1;
        }
        proof {
            assert(self.outputs@.take(i as int) =~= self.outputs@);
        }
        found
    }

    /// Whether the point lies in the region of the output.
    pub fn output_under(&self, id: OutputId, point: Point) -> (inside: bool)
        ensures
            inside == self.output_has_point(id, point),
    {
        let mut inside = false;
        let mut i: usize = 0;
        while i < self.outputs.len()
            invariant
                0 <= i <= self.outputs@.len(),
                inside == exists|k: int|
                    0 <= k < i && (#[trigger] self.outputs@[k]).id == id
                        && self.outputs@[k].contains(point),
            decreases self.outputs@.len() - i,
        {
            if self.outputs[i].id == id && self.outputs[i].has_point(point) {
                inside = true;
            }
            i += 1;
        }
        inside
    }

    /// How far right the mapped outputs reach: the sum of their widths, held at the
    /// largest coordinate.
    pub fn right_end(&self) -> (x: i32)
        requires
            self.wf(),
        ensures
            x == right_edge(self.outputs@),
            x >= 0,
    {
        let mut x: i32 = 0;
        let mut i: usize = 0;
        while i < self.outputs.len()
            invariant
                0 <= i <= self.outputs@.len(),
                sized(self.outputs@),
                x == right_edge(self.outputs@.take(i as int)),
                x >= 0,
            decreases self.outputs@.len() - i,
        {
            proof {
                assert(self.outputs@.take(i + 1).drop_last() =~= self.outputs@.take(i as int));
                assert(self.outputs@.take(i + 1).last() == self.outputs@[i as int]);
                lemma_total_width_grows(self.outputs@, i as int);
            }
            let width = self.outputs[i].width;
            if x > i32::MAX - width {
                x = i32::MAX;
            } else {
                x = x + width;
            }
            i += 1;
        }
        proof {
            assert(self.outputs@.take(i as int) =~= self.outputs@);
        }
        x
    }

    /// Puts the output at the given place, with the size of its current mode at its
    /// scale; an output that is mapped already moves there.
    pub fn map_output(&mut self, output: &Output, x: i32, y: i32)
        requires
            old(self).wf(),
            output.wf(),
        ensures
            final(self).outputs@ == with_output(
                old(self).outputs@,
                MappedOutput {
                    id: output.id,
                    x,
                    y,
                    width: output.logical_size().0 as i32,
                    height: output.logical_size().1 as i32,
                },
            ),
            final(self)@ == old(self)@.insert(
                output.id,
                MappedOutput {
                    id: output.id,
                    x,
                    y,
                    width: output.logical_size().0 as i32,
                    height: output.logical_size().1 as i32,
                },
            ),
            final(self).wf(),
            final(self).maps(output.id),
    {
        let size = output.geometry_size();
        let entry = MappedOutput { id: output.id, x, y, width: size.0, height: size.1 };
        let place = self.find(output.id);
        proof {
            lemma_position(self.outputs@, output.id);
        }
        match place {
            Some(i) => {
                self.outputs[i] = entry;
            },
            None => {
                self.outputs.push(entry);
            },
        }
        proof {
            lemma_position(self.outputs@, output.id);
            lemma_with_output_regions(old(self).outputs@, entry);
        }
    }

    /// Takes out of the layout the outputs of one device, but for those on the given
    /// CRTCs.
    pub fn retain_of_device(&mut self, device: u64, crtcs: &Vec<u32>)
        ensures
            final(self).outputs@ == kept_of(old(self).outputs@, device, crtcs@),
            old(self).wf() ==> final(self).wf(),
            old(self).wf() ==> final(self)@ == old(self)@.restrict(
                Set::new(|id: OutputId| id.device != device || crtcs@.contains(id.crtc)),
            ),
    {
        let ghost all = self.outputs@;
        let ghost mut done: int = 0;
        let mut i: usize = 0;
        while i < self.outputs.len()
            invariant
                0 <= done <= all.len(),
                0 <= i <= self.outputs@.len(),
                i == kept_of(all.take(done), device, crtcs@).len(),
                self.outputs@ == kept_of(all.take(done), device, crtcs@) + all.skip(done),
            decreases all.len() - done,
        {
            proof {
                assert(all.take(done + 1).drop_last() =~= all.take(done));
                assert(all.take(done + 1).last() == all[done]);
                assert(self.outputs@[i as int] == all.skip(done)[0]);
            }
            let entry = self.outputs[i];
            if entry.id.device != device || has_crtc(crtcs, entry.id.crtc) {
                proof {
                    assert(kept_of(all.take(done + 1), device, crtcs@) + all.skip(done + 1)
                        =~= self.outputs@);
                }
                i += 1;
            } else {
                self.outputs.remove(i);
                proof {
                    assert(kept_of(all.take(done + 1), device, crtcs@) + all.skip(done + 1)
                        =~= self.outputs@);
                }
            }
            proof {
                done = done + 1;
            }
        }
        proof {
            assert(all.skip(done).len() == 0);
            assert(all.take(done) =~= all);
            assert(self.outputs@ =~= kept_of(all, device, crtcs@));
            lemma_kept_of(all, device, crtcs@);
            if old(self).wf() {
                lemma_kept_regions(all, device, crtcs@);
            }
        }
    }
}

/// Whether the CRTC is in the list.
pub fn has_crtc(crtcs: &Vec<u32>, crtc: u32) -> (found: bool)
    ensures
        found == crtcs@.contains(crtc),
{
    let mut i: usize = 0;
    while i < crtcs.len()
        invariant
            0 <= i <= crtcs@.len(),
            forall|k: int| 0 <= k < i ==> crtcs@[k] != crtc,
        decreases crtcs@.len() - i,
    {
        if crtcs[i] == crtc {
            return true;
        }
        i += 1;
    }
    false
}

/// The state of the compositor: the layout of its outputs and what its backend holds.
#[derive(Clone, Debug, PartialEq, Eq)]
pub struct State<BackendData> {
    pub space: Space,
    pub backend_data: BackendData,
}

impl<BackendData> State<BackendData> {
    /// Builds the state around the data of a backend, with no output mapped yet.
    /// `keyboard_added` says whether the seat took a keyboard; without one there is no
    /// state.
    pub fn new(keyboard_added: bool, backend_data: BackendData) -> (result: Result<Self, Error>)
        ensures
            result is Ok <==> keyboard_added,
            result matches Ok(state) ==> state.backend_data == backend_data
                && state.space.outputs@ == Seq::<MappedOutput>::empty() && state.space.wf(),
            result matches Err(error) ==> error == Error::KeyboardAddFailure,
    {
        if !keyboard_added {
            return Err(Error::KeyboardAddFailure);
        }
        Ok(State { space: Space::new(), backend_data })
    }

    /// Maps the output immediately to the right of all mapped outputs, at the top: as
    /// far right as their widths add up to.
    pub fn map_output_on_the_right(&mut self, output: &Output)
        requires
            old(self).space.wf(),
            output.wf(),
        ensures
            final(self).space.outputs@ == with_output(
                old(self).space.outputs@,
                MappedOutput {
                    id: output.id,
                    x: right_edge(old(self).space.outputs@) as i32,
                    y: 0,
                    width: output.logical_size().0 as i32,
                    height: output.logical_size().1 as i32,
                },
            ),
            final(self).space@ == old(self).space@.insert(
                output.id,
                MappedOutput {
                    id: output.id,
                    x: right_edge(old(self).space.outputs@) as i32,
                    y: 0,
                    width: output.logical_size().0 as i32,
                    height: output.logical_size().1 as i32,
                },
            ),
            final(self).space.wf(),
            final(self).space.maps(output.id),
            final(self).backend_data == old(self).backend_data,
    {
        let x = self.space.right_end();
        self.space.map_output(output, x, 0);
    }
}

} // verus!
