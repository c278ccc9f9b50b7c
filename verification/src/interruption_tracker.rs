//! The ends of lines that were released before they were full.

use crate::slot_ptr::SlotPtr;
use std::collections::VecDeque;
use vstd::prelude::*;

verus! {

/// The end of the messages in one part-filled line.
pub struct Interruption {
    slot_ptr: SlotPtr,
}

impl Interruption {
    /// Where the messages end.
    pub closed spec fn view(&self) -> SlotPtr {
        self.slot_ptr
    }

    /// Notes that the messages of a line end at `slot_ptr`.
    pub fn from_slot_ptr(slot_ptr: SlotPtr) -> (interruption: Self)
        ensures
            interruption@ == slot_ptr,
    {
        Interruption { slot_ptr }
    }
}

/// The interruptions that the producer has left and the consumer has not yet
/// taken up, the oldest first.
pub struct InterruptionTracker {
    entries: VecDeque<Interruption>,
}

impl InterruptionTracker {
    /// The interruptions, the oldest first.
    pub closed spec fn view(&self) -> Seq<SlotPtr> {
        self.entries@.map_values(|interruption: Interruption| interruption@)
    }

    /// A tracker with nothing in it.
    pub fn new() -> (tracker: Self)
        ensures
            tracker@ == Seq::<SlotPtr>::empty(),
    {
        let tracker = InterruptionTracker { entries: VecDeque::new() };
        assert(tracker@ =~= Seq::<SlotPtr>::empty());
        tracker
    }

    /// Adds an interruption behind all others.
    pub fn push(&mut self, slot_ptr: SlotPtr)
        ensures
            final(self)@ == old(self)@.push(slot_ptr),
    {
        self.entries.push_back(Interruption::from_slot_ptr(slot_ptr));
        assert(self@ =~= old(self)@.push(slot_ptr));
    }

    /// Removes the oldest interruption.
    pub fn pop_next(&mut self) -> (next: Option<SlotPtr>)
        ensures
            match next {
                Some(slot_ptr) => old(self)@.len() > 0 && slot_ptr == old(self)@[0] && final(self)@
                    == old(self)@.skip(1),
                None => old(self)@.len() == 0 && final(self)@ == old(self)@,
            },
    {
        match self.entries.pop_front() {
            Some(interruption) => {
                assert(self@ =~= old(self)@.skip(1));
                Some(interruption.slot_ptr)
            },
            None => None,
        }
    }

    /// The oldest interruption, which stays.
    pub fn peek_next(&self) -> (next: Option<SlotPtr>)
        ensures
            match next {
                Some(slot_ptr) => self@.len() > 0 && slot_ptr == self@[0],
                None => self@.len() == 0,
            },
    {
        if self.entries.len() == 0 {
            None
        } else {
            Some(self.entries[0].slot_ptr)
        }
    }
}

} // verus!
