//! Reassembly of line-feed terminated frames from the device's bytes.
use vstd::prelude::*;

verus! {

pub const LINE_FEED: u8 = 10;

/// Collects bytes until a line feed completes a frame.
pub struct FrameAssembler {
    pending: Vec<u8>,
}

impl FrameAssembler {
    /// Bytes received since the last line feed.
    pub closed spec fn pending(&self) -> Seq<u8> {
        self.pending@
    }

    pub fn new() -> (r: FrameAssembler)
        ensures
            r.pending() == Seq::<u8>::empty(),
    {
        FrameAssembler { pending: Vec::new() }
    }

    /// Takes one byte. A line feed hands out the bytes before it, without the
    /// line feed, and starts an empty frame; any other byte is kept.
    pub fn push_byte(&mut self, b: u8) -> (r: Option<Vec<u8>>)
        ensures
            b == LINE_FEED ==> (r matches Some(f) && f@ == old(self).pending()),
            b == LINE_FEED ==> final(self).pending() == Seq::<u8>::empty(),
            b != LINE_FEED ==> r is None && final(self).pending() == old(self).pending().push(b),
    {
        if b == LINE_FEED {
            let mut frame: Vec<u8> = Vec::new();
            std::mem::swap(&mut frame, &mut self.pending);
            Some(frame)
        } else {
            self.pending.push(b);
            None
        }
    }

    /// Forgets a partial frame.
    pub fn clear(&mut self)
        ensures
            final(self).pending() == Seq::<u8>::empty(),
    {
        self.pending = Vec::new();
    }
}

} // verus!
