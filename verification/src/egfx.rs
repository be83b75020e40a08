//! The graphics pipeline (MS-RDPEGFX), as a channel that reports in order.
//!
//! A pipeline client does the protocol, and a compositor that folds every surface command
//! into the output and hands out the regions each completed frame changed. What it does
//! not do is say *when* the output was redefined relative to those regions, so what
//! happened is queued as [`Update`]s, in the order the session must apply them: a reset
//! first (the compositor has already discarded everything that preceded it), then the
//! message's regions, then the frame boundary.

use vstd::prelude::*;

use crate::framebuffer::Rect;

verus! {

/// Something the pipeline did to the desktop.
#[derive(Debug, PartialEq, Eq)]
pub enum Update {
    /// The server redefined the graphics output (`ResetGraphics`): every surface is gone
    /// and the desktop is now this size.
    Reset { width: u32, height: u32 },
    /// A completed frame changed this rectangle of the output to these pixels, tightly
    /// packed RGBA.
    Paint { rect: Rect, rgba: Vec<u8> },
    /// The frames whose regions were just queued are complete.
    FrameEnd,
}

/// A region the compositor handed out: its edges, right and bottom exclusive, and its
/// pixels.
#[derive(Debug, PartialEq, Eq)]
pub struct Region {
    pub left: u16,
    pub top: u16,
    pub right: u16,
    pub bottom: u16,
    pub rgba: Vec<u8>,
}

impl Region {
    /// The rectangle the edges enclose, of no width or height where they are out of
    /// order.
    pub open spec fn rect(self) -> Rect {
        Rect {
            x: self.left as u32,
            y: self.top as u32,
            width: (if self.right > self.left { self.right - self.left } else { 0 }) as u32,
            height: (if self.bottom > self.top { self.bottom - self.top } else { 0 }) as u32,
        }
    }

    /// Whether there is anything inside the edges.
    pub open spec fn shows(self) -> bool {
        self.right > self.left && self.bottom > self.top
    }
}

/// A paint for each region that encloses anything, in order.
pub open spec fn paints(regions: Seq<Region>) -> Seq<Update>
    decreases regions.len(),
{
    if regions.len() == 0 {
        seq![]
    } else {
        let before = paints(regions.drop_last());
        let last = regions.last();
        if last.shows() {
            before.push(Update::Paint { rect: last.rect(), rgba: last.rgba })
        } else {
            before
        }
    }
}

/// What a message's regions amount to. Regions are only ever committed by an `EndFrame`,
/// so a message that produced any finished at least one frame.
pub open spec fn updates_spec(regions: Seq<Region>) -> Seq<Update> {
    if regions.len() == 0 { seq![] } else { paints(regions).push(Update::FrameEnd) }
}

/// What happened and has not been applied yet.
#[derive(Debug)]
pub struct Updates(pub Vec<Update>);

impl Updates {
    pub fn new() -> (updates: Updates)
        ensures
            updates.0@ == Seq::<Update>::empty(),
    {
        Updates(Vec::new())
    }

    /// The server redefined the output: queued at the moment it happens, which is ahead of
    /// every region the same message goes on to produce.
    pub fn reset(&mut self, width: u32, height: u32)
        ensures
            final(self).0@ == old(self).0@.push(Update::Reset { width, height }),
    {
        self.0.push(Update::Reset { width, height });
    }

    /// The regions a message produced.
    pub fn drained(&mut self, regions: Vec<Region>)
        ensures
            final(self).0@ == old(self).0@ + updates_spec(regions@),
    {
        if regions.len() == 0 {
            assert(self.0@ =~= old(self).0@ + updates_spec(regions@));
            return;
        }
        let ghost all = regions@;
        let ghost mut done: int = 0;
        assert(self.0@ =~= old(self).0@ + paints(all.take(0)));
        for region in it: regions
            invariant
                it.seq() == all,
                done == it.index(),
                0 <= done <= all.len(),
                self.0@ == old(self).0@ + paints(all.take(done)),
        {
            assert(region == all[done]);
            assert(all.take(done + 1).drop_last() =~= all.take(done));
            let rect = Rect {
                x: region.left as u32,
                y: region.top as u32,
                width: region.right.saturating_sub(region.left) as u32,
                height: region.bottom.saturating_sub(region.top) as u32,
            };
            if !rect.is_empty() {
                self.0.push(Update::Paint { rect, rgba: region.rgba });
            }
            assert(self.0@ =~= old(self).0@ + paints(all.take(done + 1)));
            proof {
                done = done + 1;
            }
        }
        assert(all.take(all.len() as int) =~= all);
        self.0.push(Update::FrameEnd);
        assert(self.0@ =~= old(self).0@ + updates_spec(all));
    }

    /// Everything that happened, in order, leaving nothing.
    pub fn take(&mut self) -> (updates: Vec<Update>)
        ensures
            updates@ == old(self).0@,
            final(self).0@ == Seq::<Update>::empty(),
    {
        let mut taken: Vec<Update> = Vec::new();
        taken.append(&mut self.0);
        assert(taken@ =~= old(self).0@);
        assert(self.0@ =~= Seq::<Update>::empty());
        taken
    }
}

/// A reset goes ahead of every region of the message it came in, and a frame's end after
/// all of them.
pub proof fn a_reset_goes_first_and_the_end_last(regions: Seq<Region>, width: u32, height: u32)
    requires
        regions.len() > 0,
    ensures
        ({
            let queue = seq![Update::Reset { width, height }] + updates_spec(regions);
            &&& queue.first() == (Update::Reset { width, height })
            &&& queue.last() == Update::FrameEnd
            &&& forall|i: int| 0 < i < queue.len() - 1 ==> #[trigger] queue[i] is Paint
        }),
{
    all_paints(regions);
    let queue = seq![Update::Reset { width, height }] + updates_spec(regions);
    assert forall|i: int| 0 < i < queue.len() - 1 implies #[trigger] queue[i] is Paint by {
        assert(queue[i] == paints(regions)[i - 1]);
    }
}

proof fn all_paints(regions: Seq<Region>)
    ensures
        forall|i: int| 0 <= i < paints(regions).len() ==> #[trigger] paints(regions)[i] is Paint,
    decreases regions.len(),
{
    if regions.len() > 0 {
        all_paints(regions.drop_last());
    }
}

} // verus!
