use vstd::prelude::*;

verus! {

/// Bookkeeping of progressive rendering: how many frames of one unchanged
/// view are summed in the accumulation buffer.
///
/// Each pixel shown is the buffer's sum divided by that count. Any change of
/// camera, scene or image size makes the sum meaningless, so the count goes
/// back to zero and the caller clears the buffer.
pub struct Accumulation {
    frame_count: u32,
}

impl Accumulation {
    pub closed spec fn spec_frames(self) -> nat {
        self.frame_count as nat
    }

    /// An empty accumulation: no frame summed yet.
    pub fn new() -> (r: Accumulation)
        ensures
            r.spec_frames() == 0,
    {
        Accumulation { frame_count: 0 }
    }

    /// Number of frames summed since the last reset.
    pub fn frames(&self) -> (r: u32)
        ensures
            r == self.spec_frames(),
    {
        self.frame_count
    }

    /// Whether one more frame can be counted.
    pub fn can_add_frame(&self) -> (r: bool)
        ensures
            r == (self.spec_frames() < u32::MAX),
    {
        self.frame_count < u32::MAX
    }

    /// Counts a frame just added to the buffer and returns the divisor that
    /// turns the buffer's sums into averages.
    pub fn add_frame(&mut self) -> (divisor: u32)
        requires
            old(self).spec_frames() < u32::MAX,
        ensures
            final(self).spec_frames() == old(self).spec_frames() + 1,
            divisor == final(self).spec_frames(),
    {
        self.frame_count = self.frame_count + 1;
        self.frame_count
    }

    /// Starts over: the caller clears the buffer.
    pub fn reset(&mut self)
        ensures
            final(self).spec_frames() == 0,
    {
        self.frame_count = 0;
    }

    /// Takes note of a new view. A view that differs from the current one
    /// resets the count; the result says whether the buffer must be cleared.
    pub fn update_view(&mut self, changed: bool) -> (clear: bool)
        ensures
            clear == changed,
            final(self).spec_frames() == if changed {
                0
            } else {
                old(self).spec_frames()
            },
    {
        if changed {
            self.reset();
        }
        changed
    }
}

} // verus!
