//! Display modes as the driver reports them, and the choice among them.

use crate::output::Mode;
use drm::control::ModeTypeFlags;
use vstd::prelude::*;

verus! {

/// Bit of `mode_type` by which the driver marks the mode it prefers.
pub const MODE_TYPE_PREFERRED: u32 = 0x8;

/// One display mode of a connector, as the driver reports it.
#[derive(Clone, Copy, Debug, PartialEq, Eq, Structural)]
pub struct ModeInfo {
    /// Visible width in pixels.
    pub width: u16,
    /// Visible height in pixels.
    pub height: u16,
    /// Refresh rate in millihertz.
    pub refresh: i32,
    /// Mode type flags (`MODE_TYPE_*`).
    pub mode_type: u32,
}

impl ModeInfo {
    /// Whether the driver marks this mode as the preferred one.
    pub open spec fn preferred(self) -> bool {
        self.mode_type & MODE_TYPE_PREFERRED != 0
    }

    /// The output mode of this driver mode: the same size and refresh rate.
    pub open spec fn mode(self) -> Mode {
        Mode { width: self.width as i32, height: self.height as i32, refresh: self.refresh }
    }

    /// Whether the driver marks this mode as the preferred one.
    pub fn is_preferred(&self) -> (yes: bool)
        ensures
            yes == self.preferred(),
    {
        has_preferred_flag(self.mode_type)
    }

    /// The output mode of this driver mode.
    pub fn output_mode(&self) -> (mode: Mode)
        ensures
            mode == self.mode(),
    {
        Mode { width: self.width as i32, height: self.height as i32, refresh: self.refresh }
    }
}

/// Calls `ModeTypeFlags::from_bits_truncate` and `ModeTypeFlags::contains` of the `drm`
/// crate: whether the preferred flag, bit 3, is set in the mode type.
#[verifier::external_body]
fn has_preferred_flag(mode_type: u32) -> (yes: bool)
    ensures
        yes == (mode_type & MODE_TYPE_PREFERRED != 0),
{
    ModeTypeFlags::from_bits_truncate(mode_type).contains(ModeTypeFlags::PREFERRED)
}

/// The first preferred mode of the list, if any.
pub open spec fn first_preferred(modes: Seq<ModeInfo>) -> Option<int>
    decreases modes.len(),
{
    if modes.len() == 0 {
        None
    } else {
        match first_preferred(modes.drop_last()) {
            Some(i) => Some(i),
            None => if modes.last().preferred() {
                Some(modes.len() - 1)
            } else {
                None
            },
        }
    }
}

/// The mode an output is driven with: the first that the driver prefers, or the first
/// of the list where it prefers none.
pub open spec fn selected_mode_index(modes: Seq<ModeInfo>) -> int {
    match first_preferred(modes) {
        Some(i) => i,
        None => 0,
    }
}

/// `first_preferred` finds a preferred mode exactly when there is one, and then the
/// first of them.
pub proof fn lemma_first_preferred(modes: Seq<ModeInfo>)
    ensures
        match first_preferred(modes) {
            Some(i) => 0 <= i < modes.len() && modes[i].preferred() && forall|j: int|
                0 <= j < i ==> !(#[trigger] modes[j]).preferred(),
            None => forall|j: int| 0 <= j < modes.len() ==> !(#[trigger] modes[j]).preferred(),
        },
    decreases modes.len(),
{
    if modes.len() > 0 {
        let front = modes.drop_last();
        lemma_first_preferred(front);
        assert(forall|j: int| 0 <= j < front.len() ==> front[j] == modes[j]);
        match first_preferred(front) {
            Some(i) => {
                assert(modes[i] == front[i]);
                assert forall|j: int| 0 <= j < i implies !(#[trigger] modes[j]).preferred() by {
                    assert(modes[j] == front[j]);
                }
            },
            None => {
                assert forall|j: int| 0 <= j < modes.len() - 1 implies !(
                #[trigger] modes[j]).preferred() by {
                    assert(modes[j] == front[j]);
                }
            },
        }
    }
}

/// The selected mode lies in a list that is not empty, and it is the first mode where
/// the driver prefers none.
pub proof fn lemma_selected_mode(modes: Seq<ModeInfo>)
    requires
        modes.len() > 0,
    ensures
        0 <= selected_mode_index(modes) < modes.len(),
        (forall|j: int| 0 <= j < modes.len() ==> !(#[trigger] modes[j]).preferred())
            ==> selected_mode_index(modes) == 0,
        (exists|j: int| 0 <= j < modes.len() && (#[trigger] modes[j]).preferred()) ==> {
            &&& modes[selected_mode_index(modes)].preferred()
            &&& forall|j: int|
                0 <= j < selected_mode_index(modes) ==> !(#[trigger] modes[j]).preferred()
        },
{
    lemma_first_preferred(modes);
}

/// Finds the position of the mode to drive an output with: the first preferred mode, or
/// the first mode if none is preferred. `None` only for an empty list.
pub fn select_mode(modes: &Vec<ModeInfo>) -> (index: Option<usize>)
    ensures
        modes@.len() == 0 <==> index is None,
        index matches Some(i) ==> i == selected_mode_index(modes@) && i < modes@.len(),
{
    if modes.len() == 0 {
        return None;
    }
    let mut found: Option<usize> = None;
    let mut i: usize = 0;
    while i < modes.len()
        invariant
            0 <= i <= modes@.len(),
            found matches Some(k) ==> k < i,
            match found {
                Some(k) => first_preferred(modes@.take(i as int)) == Some(k as int),
                None => first_preferred(modes@.take(i as int)) is None,
            },
        decreases modes@.len() - i,
    {
        proof {
            assert(modes@.take(i + 1).drop_last() =~= modes@.take(i as int));
            assert(modes@.take(i + 1).last() == modes@[i as int]);
        }
        if found.is_none() && modes[i].is_preferred() {
            found = Some(i);
        }
        i += 1;
    }
    proof {
        assert(modes@.take(i as int) =~= modes@);
    }
    match found {
        Some(k) => Some(k),
        None => Some(0),
    }
}

} // verus!
