use vstd::prelude::*;
use crate::bits::{is_bit_set, lemma_set_bit, lemma_clear_bit, lemma_zero_has_no_bits};

verus! {

/// Number of slots that one page covers: one per bit of a machine word.
pub const WAKER_PAGE_SIZE: usize = 64;

/// The notification state of `WAKER_PAGE_SIZE` consecutive slots, one bit per
/// slot in each of three bitmaps.
#[derive(Clone, Copy)]
pub struct WakerPage {
    notified: u64,
    dropped: u64,
    completed: u64,
}

impl WakerPage {
    pub closed spec fn notified_bits(&self) -> u64 {
        self.notified
    }

    pub closed spec fn dropped_bits(&self) -> u64 {
        self.dropped
    }

    pub closed spec fn completed_bits(&self) -> u64 {
        self.completed
    }

    /// Slot `i` has pending work and should be polled.
    pub open spec fn is_notified(&self, i: int) -> bool {
        is_bit_set(self.notified_bits(), i)
    }

    /// The handle of slot `i` was released before its slot was reclaimed.
    pub open spec fn is_dropped(&self, i: int) -> bool {
        is_bit_set(self.dropped_bits(), i)
    }

    /// Slot `i` has finished and its result has not been taken.
    pub open spec fn is_completed(&self, i: int) -> bool {
        is_bit_set(self.completed_bits(), i)
    }

    /// A page on which no slot is notified, dropped or completed.
    pub fn new() -> (r: WakerPage)
        ensures
            r.notified_bits() == 0,
            r.dropped_bits() == 0,
            r.completed_bits() == 0,
    {
        WakerPage { notified: 0, dropped: 0, completed: 0 }
    }

    /// Prepares slot `ix` for a freshly inserted computation: it is notified,
    /// so that the next pass polls it, and neither dropped nor completed.
    pub fn initialize(&mut self, ix: usize)
        requires
            ix < WAKER_PAGE_SIZE,
        ensures
            forall|j: int| #[trigger] final(self).is_notified(j) == (j == ix || old(self).is_notified(j)),
            forall|j: int| #[trigger] final(self).is_dropped(j) == (j != ix && old(self).is_dropped(j)),
            forall|j: int|
                #[trigger] final(self).is_completed(j) == (j != ix && old(self).is_completed(j)),
    {
        let m: u64 = 1u64 << (ix as u64);
        proof {
            lemma_set_bit(self.notified, ix as u64);
            lemma_clear_bit(self.dropped, ix as u64);
            lemma_clear_bit(self.completed, ix as u64);
        }
        self.notified = self.notified | m;
        self.dropped = self.dropped & !m;
        self.completed = self.completed & !m;
    }

    /// Marks slot `ix` as having pending work.
    pub fn mark_notified(&mut self, ix: usize)
        requires
            ix < WAKER_PAGE_SIZE,
        ensures
            forall|j: int| #[trigger] final(self).is_notified(j) == (j == ix || old(self).is_notified(j)),
            final(self).dropped_bits() == old(self).dropped_bits(),
            final(self).completed_bits() == old(self).completed_bits(),
    {
        let m: u64 = 1u64 << (ix as u64);
        proof {
            lemma_set_bit(self.notified, ix as u64);
        }
        self.notified = self.notified | m;
    }

    /// Reads and clears the whole notified bitmap in one step.
    pub fn take_notified(&mut self) -> (r: u64)
        ensures
            r == old(self).notified_bits(),
            forall|j: int| !#[trigger] final(self).is_notified(j),
            final(self).dropped_bits() == old(self).dropped_bits(),
            final(self).completed_bits() == old(self).completed_bits(),
    {
        let r = self.notified;
        self.notified = 0;
        proof {
            lemma_zero_has_no_bits();
        }
        r
    }

    /// Marks slot `ix` as dropped by its handle.
    pub fn mark_dropped(&mut self, ix: usize)
        requires
            ix < WAKER_PAGE_SIZE,
        ensures
            forall|j: int| #[trigger] final(self).is_dropped(j) == (j == ix || old(self).is_dropped(j)),
            final(self).notified_bits() == old(self).notified_bits(),
            final(self).completed_bits() == old(self).completed_bits(),
    {
        let m: u64 = 1u64 << (ix as u64);
        proof {
            lemma_set_bit(self.dropped, ix as u64);
        }
        self.dropped = self.dropped | m;
    }

    /// Reads and clears the whole dropped bitmap in one step.
    pub fn take_dropped(&mut self) -> (r: u64)
        ensures
            r == old(self).dropped_bits(),
            forall|j: int| !#[trigger] final(self).is_dropped(j),
            final(self).notified_bits() == old(self).notified_bits(),
            final(self).completed_bits() == old(self).completed_bits(),
    {
        let r = self.dropped;
        self.dropped = 0;
        proof {
            lemma_zero_has_no_bits();
        }
        r
    }

    /// Marks slot `ix` as finished.
    pub fn mark_completed(&mut self, ix: usize)
        requires
            ix < WAKER_PAGE_SIZE,
        ensures
            forall|j: int|
                #[trigger] final(self).is_completed(j) == (j == ix || old(self).is_completed(j)),
            final(self).notified_bits() == old(self).notified_bits(),
            final(self).dropped_bits() == old(self).dropped_bits(),
    {
        let m: u64 = 1u64 << (ix as u64);
        proof {
            lemma_set_bit(self.completed, ix as u64);
        }
        self.completed = self.completed | m;
    }

    /// Whether slot `ix` has finished.
    pub fn has_completed(&self, ix: usize) -> (r: bool)
        requires
            ix < WAKER_PAGE_SIZE,
        ensures
            r == self.is_completed(ix as int),
    {
        (self.completed >> (ix as u64)) & 1u64 == 1u64
    }

    /// Whether slot `ix` is dropped and not yet reclaimed.
    pub fn was_dropped(&self, ix: usize) -> (r: bool)
        requires
            ix < WAKER_PAGE_SIZE,
        ensures
            r == self.is_dropped(ix as int),
    {
        (self.dropped >> (ix as u64)) & 1u64 == 1u64
    }

    /// Resets all three bits of slot `ix`, leaving the other slots alone.
    pub fn clear(&mut self, ix: usize)
        requires
            ix < WAKER_PAGE_SIZE,
        ensures
            forall|j: int| #[trigger] final(self).is_notified(j) == (j != ix && old(self).is_notified(j)),
            forall|j: int| #[trigger] final(self).is_dropped(j) == (j != ix && old(self).is_dropped(j)),
            forall|j: int|
                #[trigger] final(self).is_completed(j) == (j != ix && old(self).is_completed(j)),
    {
        let m: u64 = !(1u64 << (ix as u64));
        proof {
            lemma_clear_bit(self.notified, ix as u64);
            lemma_clear_bit(self.dropped, ix as u64);
            lemma_clear_bit(self.completed, ix as u64);
        }
        self.notified = self.notified & m;
        self.dropped = self.dropped & m;
        self.completed = self.completed & m;
    }
}

} // verus!
