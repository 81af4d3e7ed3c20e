//! The pointer image: the frames of the cursor theme and which of them is shown.

use vstd::prelude::*;
use vstd::string::StringExecFns;
use xcursor::parser::parse_xcursor;

verus! {

/// Why the cursor could not be loaded.
#[derive(Clone, Copy, Debug, PartialEq, Eq, Structural)]
pub enum Error {
    /// The theme has no usable pointer icon.
    CursorIconLoadFailure,
}

impl Error {
    /// The text shown for this error.
    pub open spec fn message_spec(self) -> Seq<char> {
        "Failed to load cursor icon"@
    }

    /// The text shown for this error.
    pub fn message(&self) -> (text: String)
        ensures
            text@ == self.message_spec(),
    {
        String::from_str("Failed to load cursor icon")
    }
}

/// One image of a cursor file.
#[derive(Clone, Debug, PartialEq, Eq)]
pub struct CursorImage {
    /// Width in pixels.
    pub width: u32,
    /// Height in pixels.
    pub height: u32,
    /// How long the image is shown, in milliseconds.
    pub delay: u32,
    /// The pixels, four bytes each, in the order of the file.
    pub pixels_rgba: Vec<u8>,
}

/// An image of the animation and the time, counted from the start of the animation in
/// milliseconds, until which it is shown.
#[derive(Clone, Debug, PartialEq, Eq)]
pub struct CursorFrame {
    pub until: u64,
    pub image: CursorImage,
}

/// What the pointer shows.
#[derive(Clone, Copy, Debug, PartialEq, Eq, Structural)]
pub enum CursorImageStatus {
    /// Nothing.
    Hidden,
    /// The pointer icon of the theme.
    Default,
    /// A surface that a client supplies.
    Surface,
}

/// What is to be drawn for the pointer.
#[derive(Clone, Copy, Debug, PartialEq, Eq, Structural)]
pub enum CursorRender {
    /// Nothing.
    Nothing,
    /// The frame of the theme's animation with this position.
    Frame(usize),
    /// The tree of the client's surface.
    Surface,
}

/// The images that a cursor file holds, or `None` where the bytes are no cursor file:
/// what `xcursor::parser::parse_xcursor` returns for them.
pub uninterp spec fn xcursor_images(data: Seq<u8>) -> Option<Seq<CursorImage>>;

/// Calls `xcursor::parser::parse_xcursor`, and keeps of each image the size, the delay
/// and the pixels in file order. The result depends on the bytes alone. For each image
/// the parser allocates as many bytes as its header announces, at most four for each of
/// 32767 by 32767 pixels.
#[verifier::external_body]
fn parse_cursor_file(data: &Vec<u8>) -> (images: Option<Vec<CursorImage>>)
    ensures
        match images {
            Some(found) => xcursor_images(data@) == Some(found@),
            None => xcursor_images(data@) is None,
        },
{
    let parsed = parse_xcursor(data.as_slice())?;
    Some(
        parsed.into_iter().map(
            |image| CursorImage {
                width: image.width,
                height: image.height,
                delay: image.delay,
                pixels_rgba: image.pixels_rgba,
            },
        ).collect(),
    )
}

/// The time at which the animation made of these frames ends.
pub open spec fn animation_end(frames: Seq<CursorFrame>) -> u64 {
    if frames.len() == 0 {
        0
    } else {
        frames.last().until
    }
}

/// A time after a delay, held at the largest value where it would pass it.
pub open spec fn later(time: u64, delay: u32) -> u64 {
    if time + delay > u64::MAX {
        u64::MAX
    } else {
        (time + delay) as u64
    }
}

/// The animation of the images that are `size` pixels wide and high: each is shown for
/// its delay after the one before. An image that would end at the time the one before
/// ends takes its place.
pub open spec fn animation(images: Seq<CursorImage>, size: u32) -> Seq<CursorFrame>
    decreases images.len(),
{
    if images.len() == 0 {
        Seq::empty()
    } else {
        let before = animation(images.drop_last(), size);
        let image = images.last();
        if image.width == size && image.height == size {
            let frame = CursorFrame { until: later(animation_end(before), image.delay), image };
            if before.len() > 0 && before.last().until == frame.until {
                before.drop_last().push(frame)
            } else {
                before.push(frame)
            }
        } else {
            before
        }
    }
}

/// The times at which the frames end grow from each frame to the next.
pub open spec fn ascending(frames: Seq<CursorFrame>) -> bool {
    forall|i: int, j: int|
        0 <= i < j < frames.len() ==> (#[trigger] frames[i]).until < (#[trigger] frames[j]).until
}

/// The first frame that is shown until `time` or longer.
pub open spec fn frame_at(frames: Seq<CursorFrame>, time: u64) -> Option<int>
    decreases frames.len(),
{
    if frames.len() == 0 {
        None
    } else {
        match frame_at(frames.drop_last(), time) {
            Some(i) => Some(i),
            None => if frames.last().until >= time {
                Some(frames.len() - 1)
            } else {
                None
            },
        }
    }
}

/// The frames of an animation end at growing times.
pub proof fn lemma_animation_ascending(images: Seq<CursorImage>, size: u32)
    ensures
        ascending(animation(images, size)),
    decreases images.len(),
{
    if images.len() > 0 {
        let before = animation(images.drop_last(), size);
        lemma_animation_ascending(images.drop_last(), size);
        let all = animation(images, size);
        assert forall|i: int, j: int| 0 <= i < j < all.len() implies (#[trigger] all[i]).until < (
        #[trigger] all[j]).until by {
            if j < all.len() - 1 {
                assert(all[i] == before[i] && all[j] == before[j]);
            } else if all.len() == before.len() + 1 {
                assert(all[i] == before[i]);
                assert(before[i].until <= before.last().until);
            } else if all.len() == before.len() && all.last() != before.last() {
                assert(all[i] == before[i]);
                assert(before[i].until < before[before.len() - 1].until);
            } else {
                assert(all[i] == before[i] && all[j] == before[j]);
            }
        }
    }
}

/// `frame_at` finds the first frame that lasts until the time, if one does.
pub proof fn lemma_frame_at(frames: Seq<CursorFrame>, time: u64)
    ensures
        match frame_at(frames, time) {
            Some(i) => 0 <= i < frames.len() && frames[i].until >= time && forall|j: int|
                0 <= j < i ==> (#[trigger] frames[j]).until < time,
            None => forall|j: int| 0 <= j < frames.len() ==> (#[trigger] frames[j]).until < time,
        },
    decreases frames.len(),
{
    if frames.len() > 0 {
        let front = frames.drop_last();
        lemma_frame_at(front, time);
        assert(forall|j: int| 0 <= j < front.len() ==> front[j] == frames[j]);
        match frame_at(front, time) {
            Some(i) => {
                assert(frames[i] == front[i]);
                assert forall|j: int| 0 <= j < i implies (#[trigger] frames[j]).until < time by {
                    assert(frames[j] == front[j]);
                }
            },
            None => {
                assert forall|j: int| 0 <= j < frames.len() - 1 implies (
                #[trigger] frames[j]).until < time by {
                    assert(frames[j] == front[j]);
                }
            },
        }
    }
}

/// The pointer of the compositor.
#[derive(Clone, Debug, PartialEq, Eq)]
pub struct CursorElement {
    /// The animation of the theme's pointer icon.
    pub default: Vec<CursorFrame>,
    /// The time the whole animation takes, in milliseconds.
    pub total_delay: u64,
    /// The time within the animation, in milliseconds.
    pub current_delay: u64,
    /// What the pointer shows.
    pub status: CursorImageStatus,
    /// Width and height of the pointer in pixels.
    pub size: u32,
}

impl CursorElement {
    /// The frames end at growing times, the last of them at the end of the animation, and
    /// the time within the animation is not past its end.
    pub open spec fn wf(&self) -> bool {
        &&& ascending(self.default@)
        &&& self.total_delay == animation_end(self.default@)
        &&& self.current_delay <= self.total_delay
    }

    /// The pointer made of the images of a cursor file.
    pub open spec fn loaded(&self, images: Seq<CursorImage>, size: u32) -> bool {
        &&& self.default@ == animation(images, size)
        &&& self.total_delay == animation_end(animation(images, size))
        &&& self.current_delay == 0
        &&& self.status == CursorImageStatus::Default
        &&& self.size == size
    }

    /// Builds the pointer from the bytes of the theme's pointer icon, `None` where the
    /// theme has no such icon or it could not be read. Fails where there are no bytes or
    /// they are no cursor file.
    pub fn new(cursor_data: Option<&Vec<u8>>, size: u32) -> (result: Result<CursorElement, Error>)
        ensures
            result is Ok <==> cursor_data is Some && xcursor_images(cursor_data.unwrap()@) is Some,
            result matches Ok(cursor) ==> cursor.loaded(
                xcursor_images(cursor_data.unwrap()@).unwrap(),
                size,
            ) && cursor.wf(),
            result matches Err(error) ==> error == Error::CursorIconLoadFailure,
    {
        match cursor_data {
            None => Err(Error::CursorIconLoadFailure),
            Some(data) => match parse_cursor_file(data) {
                None => Err(Error::CursorIconLoadFailure),
                Some(images) => Ok(CursorElement::from_images(images, size)),
            },
        }
    }

    /// Builds the pointer from the images of a cursor file: the animation of those that
    /// are `size` pixels wide and high, at its start, showing the theme's icon.
    pub fn from_images(images: Vec<CursorImage>, size: u32) -> (cursor: CursorElement)
        ensures
            cursor.loaded(images@, size),
            cursor.wf(),
    {
        let ghost all = images@;
        let mut images = images;
        let mut reversed: Vec<CursorImage> = Vec::new();
        while images.len() > 0
            invariant
                images@.len() + reversed@.len() == all.len(),
                forall|i: int| 0 <= i < images@.len() ==> images@[i] == all[i],
                forall|i: int|
                    0 <= i < reversed@.len() ==> reversed@[i] == all[all.len() - 1 - i],
            decreases images@.len(),
        {
            let image = images.pop().unwrap();
            reversed.push(image);
        }
        let mut default: Vec<CursorFrame> = Vec::new();
        let mut total_delay: u64 = 0;
        let ghost mut done: int = 0;
        while reversed.len() > 0
            invariant
                0 <= done <= all.len(),
                reversed@.len() == all.len() - done,
                forall|i: int|
                    0 <= i < reversed@.len() ==> reversed@[i] == all[all.len() - 1 - i],
                default@ == animation(all.take(done), size),
                total_delay == animation_end(default@),
            decreases reversed@.len(),
        {
            let image = reversed.pop().unwrap();
            proof {
                assert(image == all[done]);
                assert(all.take(done + 1).drop_last() =~= all.take(done));
                assert(all.take(done + 1).last() == all[done]);
            }
            if image.width == size && image.height == size {
                let until = total_delay.saturating_add(image.delay as u64);
                if default.len() > 0 && default[default.len() - 1].until == until {
                    default.pop();
                }
                default.push(CursorFrame { until, image });
                total_delay = until;
            }
            proof {
                done = done + 1;
            }
        }
        proof {
            assert(all.take(done) =~= all);
            lemma_animation_ascending(all, size);
        }
        CursorElement {
            default,
            total_delay,
            current_delay: 0,
            status: CursorImageStatus::Default,
            size,
        }
    }

    /// Moves the animation to the time that the clock shows, in milliseconds since it
    /// started: the remainder of the animation's length by that time.
    pub fn update_animation_status(&mut self, clock_millis: u64)
        requires
            clock_millis > 0,
            old(self).wf(),
        ensures
            final(self).current_delay == old(self).total_delay % clock_millis,
            final(self).default == old(self).default,
            final(self).total_delay == old(self).total_delay,
            final(self).status == old(self).status,
            final(self).size == old(self).size,
            final(self).wf(),
    {
        let total = self.total_delay;
        assert(total % clock_millis <= total) by (nonlinear_arith)
            requires
                clock_millis > 0,
        ;
        self.current_delay = total % clock_millis;
    }

    /// Sets what the pointer shows.
    pub fn set_status(&mut self, status: CursorImageStatus)
        ensures
            final(self).status == status,
            final(self).default == old(self).default,
            final(self).total_delay == old(self).total_delay,
            final(self).current_delay == old(self).current_delay,
            final(self).size == old(self).size,
    {
        self.status = status;
    }

    /// The frame of the animation that is shown now: the first that lasts until the
    /// current time or longer. `None` only where the animation has no frame.
    pub fn current_frame(&self) -> (index: Option<usize>)
        requires
            self.wf(),
        ensures
            index is None <==> self.default@.len() == 0,
            match index {
                Some(i) => frame_at(self.default@, self.current_delay) == Some(i as int),
                None => frame_at(self.default@, self.current_delay) is None,
            },
    {
        let mut found: Option<usize> = None;
        let mut i: usize = 0;
        while i < self.default.len()
            invariant
                0 <= i <= self.default@.len(),
                match found {
                    Some(k) => frame_at(self.default@.take(i as int), self.current_delay) == Some(
                        k as int,
                    ),
                    None => frame_at(self.default@.take(i as int), self.current_delay) is None,
                },
            decreases self.default@.len() - i,
        {
            proof {
                assert(self.default@.take(i + 1).drop_last() =~= self.default@.take(i as int));
            }
            if found.is_none() && self.default[i].until >= self.current_delay {
                found = Some(i);
            }
            i += 1;
        }
        proof {
            assert(self.default@.take(i as int) =~= self.default@);
            lemma_frame_at(self.default@, self.current_delay);
        }
        found
    }

    /// What is to be drawn for the pointer: nothing while it is hidden, the current frame
    /// of the animation for the theme's icon, the client's surface otherwise.
    pub fn render_elements(&self) -> (render: CursorRender)
        requires
            self.wf(),
            self.status == CursorImageStatus::Default ==> self.default@.len() > 0,
        ensures
            render == match self.status {
                CursorImageStatus::Hidden => CursorRender::Nothing,
                CursorImageStatus::Default => CursorRender::Frame(
                    frame_at(self.default@, self.current_delay).unwrap() as usize,
                ),
                CursorImageStatus::Surface => CursorRender::Surface,
            },
            render matches CursorRender::Frame(i) ==> i < self.default@.len(),
    {
        match self.status {
            CursorImageStatus::Hidden => CursorRender::Nothing,
            CursorImageStatus::Default => {
                proof {
                    lemma_frame_at(self.default@, self.current_delay);
                }
                let index = self.current_frame();
                CursorRender::Frame(index.unwrap())
            },
            CursorImageStatus::Surface => CursorRender::Surface,
        }
    }
}

} // verus!
