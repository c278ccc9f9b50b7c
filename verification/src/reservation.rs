//! Slots that are set aside to be filled or read one by one.

use crate::buffer::Buffer;
use crate::consumer::Consumer;
use crate::math;
use crate::producer::Producer;
use crate::slot_ptr::SlotPtr;
use crate::transitions;
use vstd::prelude::*;

verus! {

/// Room for messages that are sent together.
///
/// The slots lie in two parts, `s1` up to the end of the ring and `s2` from its
/// start. What was put in them is sent by `finalize_reservation`.
pub struct SendReservation<'a, T, const N: usize> {
    pub tx: &'a mut Producer<T, N>,
    pub buffer: &'a mut Buffer<T, N>,
    pub s1: usize,
    pub s1_remaining: usize,
    pub s2: usize,
    pub s2_remaining: usize,
    pub total_reserved: usize,
    pub sent: Ghost<Seq<T>>,
    pub before: Ghost<Buffer<T, N>>,
}

impl<'a, T, const N: usize> SendReservation<'a, T, N> {
    /// The buffer when the reservation was made.
    pub open spec fn base(&self) -> Buffer<T, N> {
        self.before@
    }

    /// The messages put in so far.
    pub open spec fn items(&self) -> Seq<T> {
        self.sent@
    }

    /// How many more messages can be put in.
    pub open spec fn remaining(&self) -> int {
        self.s1_remaining + self.s2_remaining
    }

    /// The first slot that was set aside.
    pub open spec fn start(&self) -> int {
        self.base().head * N + self.base().pending().len()
    }

    /// The slot that the next message goes to, if one is left.
    pub open spec fn next_slot(&self) -> int {
        if self.s1_remaining > 0 {
            self.s1 as int
        } else {
            self.s2 as int
        }
    }

    /// How many of the slots come before the end of the ring.
    pub open spec fn first_part(&self) -> int {
        self.base().unwrapped(self.base().write_ptr(), self.total_reserved as int)
    }

    /// The slots of the ring.
    pub open spec fn slots(&self) -> Seq<Option<T>> {
        self.buffer.slots@
    }

    /// The reservation covers free slots only, and the messages put in so far lie
    /// in the first ones of them.
    pub open spec fn wf(&self) -> bool {
        let count = self.items().len() as int;
        &&& self.tx.wf(&self.base())
        &&& self.tx.up_to_date(&self.base())
        &&& *self.buffer == (Buffer { slots: self.buffer.slots, ..self.base() })
        &&& self.total_reserved <= self.base().free()
        &&& self.total_reserved <= self.base().capacity - N
        &&& count + self.remaining() == self.total_reserved
        &&& if count <= self.first_part() {
            &&& self.s1 == self.start() + count
            &&& self.s1_remaining == self.first_part() - count
            &&& self.s2 == 0
        } else {
            &&& self.s1_remaining == 0
            &&& self.s2 == count - self.first_part()
        }
        &&& self.refilled(self.slots())
    }

    /// Every slot that was set aside is filled or left, and all of them are free
    /// slots of the ring.
    pub proof fn law_slots_are_filled_or_left(&self)
        requires
            self.wf(),
        ensures
            self.remaining() == self.s1_remaining + self.s2_remaining,
            self.items().len() + self.s1_remaining + self.s2_remaining == self.total_reserved,
            self.total_reserved <= self.base().free(),
    {
    }

    /// Sets aside as many slots as there is room for, up to `size`.
    pub fn new(
        tx: &'a mut Producer<T, N>,
        buffer: &'a mut Buffer<T, N>,
        size: usize,
    ) -> (reservation: Self)
        requires
            old(tx).wf(old(buffer)),
        ensures
            reservation.wf(),
            reservation.base() == *old(buffer),
            reservation.slots() == old(buffer).slots@,
            reservation.items() == Seq::<T>::empty(),
            reservation.remaining() == math::least(
                size as int,
                old(buffer).capacity - N,
                old(buffer).free(),
            ),
            *final(reservation.tx) == *final(tx),
            *final(reservation.buffer) == *final(buffer),
    {
        let ghost before = *buffer;
        proof {
            before.lemma_free();
            before.lemma_capacity();
            before.lemma_head_and_tail();
            before.lemma_flat_bound(before.write_ptr());
            transitions::lemma_written_nothing(
                before.slots@,
                before.head * N + before.pending().len(),
            );
        }
        let total_reserved: usize = match tx.clamp_batch_size(buffer, size) {
            Ok(size) => size,
            Err(_) => 0,
        };
        let from_abs_index: usize = tx.slot_ptr.cl_index * N + tx.slot_ptr.cl_offset;
        let s1_remaining: usize = if total_reserved <= buffer.capacity - from_abs_index {
            total_reserved
        } else {
            buffer.capacity - from_abs_index
        };
        SendReservation {
            tx,
            buffer,
            s1: from_abs_index,
            s1_remaining,
            s2: 0,
            s2_remaining: total_reserved - s1_remaining,
            total_reserved,
            sent: Ghost(Seq::empty()),
            before: Ghost(before),
        }
    }

    /// Puts a message in the next slot, if there is one left.
    pub fn send(&mut self, value: T) -> (outcome: Option<()>)
        requires
            old(self).wf(),
        ensures
            final(self).wf(),
            final(self).base() == old(self).base(),
            final(self).total_reserved == old(self).total_reserved,
            old(self).remaining() == 0 ==> {
                &&& outcome == None::<()>
                &&& final(self).items() == old(self).items()
                &&& final(self).slots() == old(self).slots()
            },
            old(self).remaining() > 0 ==> {
                &&& outcome == Some(())
                &&& final(self).items() == old(self).items().push(value)
                &&& final(self).slots() == old(self).slots().update(
                    old(self).next_slot(),
                    Some(value),
                )
                &&& final(self).remaining() == old(self).remaining() - 1
            },
            *final(final(self).tx) == *final(old(self).tx),
            *final(final(self).buffer) == *final(old(self).buffer),
    {
        proof {
            self.lemma_next_slot(value);
        }
        if self.s1_remaining > 0 {
            self.buffer.slots[self.s1] = Some(value);
            self.s1 = self.s1 + 1;
            self.s1_remaining = self.s1_remaining - 1;
            self.sent = Ghost(self.sent@.push(value));
            Some(())
        } else if self.s2_remaining > 0 {
            self.buffer.slots[self.s2] = Some(value);
            self.s2 = self.s2 + 1;
            self.s2_remaining = self.s2_remaining - 1;
            self.sent = Ghost(self.sent@.push(value));
            Some(())
        } else {
            None
        }
    }

    /// Puts as many messages of `src` in as there are slots left, from its start.
    pub fn send_slice(&mut self, src: &[T]) -> (count: usize) where T: Copy
        requires
            old(self).wf(),
        ensures
            final(self).wf(),
            final(self).base() == old(self).base(),
            final(self).total_reserved == old(self).total_reserved,
            count == if src@.len() <= old(self).remaining() {
                src@.len() as int
            } else {
                old(self).remaining()
            },
            final(self).items() == old(self).items() + src@.take(count as int),
            final(self).remaining() == old(self).remaining() - count,
            transitions::written(
                old(self).slots(),
                final(self).slots(),
                old(self).start() + old(self).items().len(),
                src@.take(count as int),
                count as int,
            ),
            *final(final(self).tx) == *final(old(self).tx),
            *final(final(self).buffer) == *final(old(self).buffer),
    {
        let left: usize = self.s1_remaining + self.s2_remaining;
        let to_copy: usize = src.len().min(left);
        let mut copied: usize = 0;
        let ghost next = self.start() + self.items().len();
        assert(self.items() + src@.take(0) =~= self.items());
        assert(src@.take(0) =~= Seq::<T>::empty());
        proof {
            transitions::lemma_written_nothing(self.slots(), next);
            self.lemma_parts();
        }
        while copied < to_copy
            invariant
                copied <= to_copy <= src@.len(),
                to_copy <= old(self).remaining(),
                self.wf(),
                self.base() == old(self).base(),
                self.total_reserved == old(self).total_reserved,
                self.items() == old(self).items() + src@.take(copied as int),
                self.remaining() == old(self).remaining() - copied,
                next == old(self).start() + old(self).items().len(),
                old(self).remaining() <= old(self).slots().len(),
                transitions::written(
                    old(self).slots(),
                    self.slots(),
                    next,
                    src@.take(copied as int),
                    to_copy as int,
                ),
                *final(self.tx) == *final(old(self).tx),
                *final(self.buffer) == *final(old(self).buffer),
            decreases to_copy - copied,
        {
            proof {
                self.lemma_next_slot(src@[copied as int]);
                transitions::lemma_written_push(
                    old(self).slots(),
                    self.slots(),
                    next,
                    src@.take(copied as int),
                    src@[copied as int],
                    to_copy as int,
                );
                assert(src@.take(copied as int).push(src@[copied as int]) =~= src@.take(
                    copied + 1,
                ));
            }
            let _ = self.send(src[copied]);
            copied = copied + 1;
            assert(self.items() =~= old(self).items() + src@.take(copied as int));
        }
        to_copy
    }

    /// The slots that are left. What is written there is not sent by that alone:
    /// `send` and `send_slice` put their messages over it.
    pub fn as_mut_slices(&mut self) -> (parts: (&mut [Option<T>], &mut [Option<T>]))
        requires
            old(self).wf(),
        ensures
            parts.0@ == old(self).slots().subrange(
                old(self).first_slot(),
                old(self).first_slot() + old(self).s1_remaining,
            ),
            parts.1@ == old(self).slots().subrange(
                old(self).s2 as int,
                old(self).s2 + old(self).s2_remaining,
            ),
            final(parts.0)@.len() == parts.0@.len() && final(parts.1)@.len() == parts.1@.len() ==> {
                &&& final(self).wf()
                &&& final(self).slots().subrange(
                    old(self).first_slot(),
                    old(self).first_slot() + old(self).s1_remaining,
                ) == final(parts.0)@
                &&& final(self).slots().subrange(
                    old(self).s2 as int,
                    old(self).s2 + old(self).s2_remaining,
                ) == final(parts.1)@
            },
            final(self).base() == old(self).base(),
            final(self).items() == old(self).items(),
            final(self).total_reserved == old(self).total_reserved,
            final(self).remaining() == old(self).remaining(),
            *final(final(self).tx) == *final(old(self).tx),
            *final(final(self).buffer) == *final(old(self).buffer),
    {
        let ghost before = *self;
        let ghost all = self.slots();
        proof {
            self.lemma_parts();
        }
        let s1 = self.s1;
        let s1_remaining = self.s1_remaining;
        let s2 = self.s2;
        let s2_remaining = self.s2_remaining;
        if s1_remaining > 0 {
            let (low, high) = self.buffer.slots.as_mut_slice().split_at_mut(s1);
            let (first, _high) = high.split_at_mut(s1_remaining);
            let (second, _low) = low.split_at_mut(s2_remaining);
            assert(first@ =~= all.subrange(s1 as int, s1 + s1_remaining));
            assert(second@ =~= all.subrange(0, s2_remaining as int));
            proof {
                let low_rest = all.subrange(0, s1 as int).subrange(s2_remaining as int, s1 as int);
                let high_rest = all.subrange(s1 as int, all.len() as int).subrange(
                    s1_remaining as int,
                    all.len() - s1,
                );
                assert forall|a: Seq<Option<T>>, b: Seq<Option<T>>|
                    a.len() == s1_remaining && b.len() == s2_remaining implies before.refilled(
                    #[trigger] ((b + low_rest) + (a + high_rest)),
                ) by {
                    before.lemma_refilled((b + low_rest) + (a + high_rest));
                }
            }
            (first, second)
        } else {
            let (low, high) = self.buffer.slots.as_mut_slice().split_at_mut(s2);
            let (first, _low) = low.split_at_mut(0);
            let (second, _high) = high.split_at_mut(s2_remaining);
            assert(second@ =~= all.subrange(s2 as int, s2 + s2_remaining));
            proof {
                let low_rest = all.subrange(0, s2 as int).subrange(0, s2 as int);
                let high_rest = all.subrange(s2 as int, all.len() as int).subrange(
                    s2_remaining as int,
                    all.len() - s2,
                );
                assert forall|a: Seq<Option<T>>, b: Seq<Option<T>>|
                    a.len() == 0 && b.len() == s2_remaining implies before.refilled(
                    #[trigger] ((a + low_rest) + (b + high_rest)),
                ) by {
                    before.lemma_refilled((a + low_rest) + (b + high_rest));
                }
            }
            (first, second)
        }
    }

    /// The first slot that is left before the end of the ring, if there is one.
    pub open spec fn first_slot(&self) -> int {
        if self.s1_remaining > 0 {
            self.s1 as int
        } else {
            0
        }
    }

    /// Whether the messages put in so far still lie in their slots, and nothing
    /// but reserved slots has changed, if the ring looks like `slots`.
    pub open spec fn refilled(&self, slots: Seq<Option<T>>) -> bool {
        transitions::written(
            self.base().slots@,
            slots,
            self.start(),
            self.items(),
            self.total_reserved as int,
        )
    }

    /// Writing to the slots that are left harms nothing.
    proof fn lemma_refilled(&self, slots: Seq<Option<T>>)
        requires
            self.wf(),
            slots.len() == self.slots().len(),
            forall|j: int|
                0 <= j < slots.len() && !(self.s1_remaining > 0 && self.s1 <= j < self.s1
                    + self.s1_remaining) && !(self.s2 <= j < self.s2 + self.s2_remaining)
                    ==> slots[j] == self.slots()[j],
        ensures
            self.refilled(slots),
    {
        let base = self.base();
        let size = base.slots@.len() as int;
        let start = self.start();
        let now = self.slots();
        base.lemma_head_and_tail();
        base.lemma_flat_bound(base.write_ptr());
        base.lemma_free();
        assert forall|j: int| #![trigger slots[j]] 0 <= j < size implies ({
            let d = math::ring_distance(start, j, size);
            &&& d < self.items().len() ==> slots[j] == Some(self.items()[d])
            &&& d >= self.total_reserved ==> slots[j] == base.slots@[j]
        }) by {
            let d = if j < start {
                j - start + size
            } else {
                j - start
            };
            if j < start {
                vstd::arithmetic::div_mod::lemma_fundamental_div_mod_converse(
                    j - start,
                    size,
                    -1,
                    d,
                );
            } else {
                vstd::arithmetic::div_mod::lemma_small_mod(d as nat, size as nat);
            }
            assert(math::ring_distance(start, j, size) == d);
            assert(d < self.items().len() ==> now[j] == Some(self.items()[d]));
            assert(d >= self.total_reserved ==> now[j] == base.slots@[j]);
        }
    }

    /// The two parts lie on the ring and do not overlap.
    proof fn lemma_parts(&self)
        requires
            self.wf(),
        ensures
            self.s1_remaining > 0 ==> self.s1 + self.s1_remaining <= self.slots().len() && self.s2
                == 0 && self.s2_remaining <= self.s1,
            self.s2 + self.s2_remaining <= self.slots().len(),
            self.remaining() <= self.slots().len(),
    {
        let base = self.base();
        base.lemma_head_and_tail();
        base.lemma_flat_bound(base.write_ptr());
        base.lemma_free();
    }

    /// Sends the messages that were put in. Ends the reservation.
    pub fn finalize_reservation(self)
        requires
            self.wf(),
        ensures
            final(self.tx).wf(final(self.buffer)),
            final(self.buffer).log@ == self.base().log@.send(self.items(), N as int),
            final(self.buffer).free() == self.base().free() - self.items().len(),
            final(self.buffer).sent_into(&self.base()),
            final(self.buffer).slots@ == self.slots(),
            final(self.tx).cached_cl_read == (SlotPtr { cl_index: self.base().tail, cl_offset: N }),
            self.items().len() > 0 ==> final(self.tx).slot_ptr == self.base().advanced(
                self.base().write_ptr(),
                self.items().len() as int,
            ),
            forall|rx: Consumer<T, N>| rx.wf(&self.base()) ==> rx.wf(final(self.buffer)),
    {
        let total_remaining: usize = self.s1_remaining + self.s2_remaining;
        let total_sent: usize = self.total_reserved - total_remaining;
        let ghost base = self.base();
        proof {
            transitions::lemma_written_within(
                base.slots@,
                self.slots(),
                self.start(),
                self.items(),
                self.total_reserved as int,
                base.free(),
            );
            base.log@.law_send(self.items(), N as int);
        }
        if total_sent == 0 {
            proof {
                base.lemma_send_nothing(self.items());
                Buffer::lemma_send(&base, self.buffer, self.items());
            }
            return;
        }
        self.tx.advance(self.buffer, total_sent, Ghost(base), self.sent);
    }

    /// Where the next message goes.
    proof fn lemma_next_slot(&self, value: T)
        requires
            self.wf(),
        ensures
            self.remaining() > 0 ==> {
                let next = self.next_slot();
                &&& 0 <= next < self.slots().len()
                &&& next == (self.start() + self.items().len()) % (self.slots().len() as int)
                &&& transitions::written(
                    self.base().slots@,
                    self.slots().update(next, Some(value)),
                    self.start(),
                    self.items().push(value),
                    self.total_reserved as int,
                )
            },
    {
        let base = self.base();
        base.lemma_head_and_tail();
        base.lemma_flat_bound(base.write_ptr());
        base.lemma_free();
        let count = self.items().len() as int;
        if self.remaining() > 0 {
            math::lemma_wrap_once(self.start() + count, base.capacity as int);
            transitions::lemma_written_push(
                base.slots@,
                self.buffer.slots@,
                self.start(),
                self.items(),
                value,
                self.total_reserved as int,
            );
        }
    }
}

/// Messages that are received together.
///
/// The slots lie in two parts, `s1` up to the end of the ring and `s2` from its
/// start. What was taken from them counts as received once
/// `finalize_reservation` was called.
pub struct RecvReservation<'a, T: Copy, const N: usize> {
    pub rx: &'a mut Consumer<T, N>,
    pub buffer: &'a mut Buffer<T, N>,
    pub s1: usize,
    pub s1_remaining: usize,
    pub s2: usize,
    pub s2_remaining: usize,
    pub total_reserved: usize,
}

impl<'a, T: Copy, const N: usize> RecvReservation<'a, T, N> {
    /// The buffer, which does not change until the reservation ends.
    pub open spec fn base(&self) -> Buffer<T, N> {
        *self.buffer
    }

    /// The receiving end, which does not change until the reservation ends.
    pub open spec fn reader(&self) -> Consumer<T, N> {
        *self.rx
    }

    /// How many more messages can be taken.
    pub open spec fn remaining(&self) -> int {
        self.s1_remaining + self.s2_remaining
    }

    /// How many messages were taken.
    pub open spec fn taken(&self) -> int {
        self.total_reserved - self.remaining()
    }

    /// How many of the slots come before the end of the ring.
    pub open spec fn first_part(&self) -> int {
        self.base().unwrapped(self.base().read_ptr(), self.total_reserved as int)
    }

    /// The reservation covers messages that are visible and have not been
    /// received, from the oldest one on.
    pub open spec fn wf(&self) -> bool {
        &&& self.reader().wf(&self.base())
        &&& self.total_reserved <= self.base().reach()
        &&& 0 <= self.taken()
        &&& if self.taken() <= self.first_part() {
            &&& self.s1 == self.base().read_ptr().flat(N as int) + self.taken()
            &&& self.s1_remaining == self.first_part() - self.taken()
            &&& self.s2 == 0
        } else {
            &&& self.s1_remaining == 0
            &&& self.s2 == self.taken() - self.first_part()
        }
    }

    /// Every message that is covered was taken or is left, and all of them are
    /// visible.
    pub proof fn law_messages_are_taken_or_left(&self)
        requires
            self.wf(),
        ensures
            self.remaining() == self.s1_remaining + self.s2_remaining,
            self.taken() + self.s1_remaining + self.s2_remaining == self.total_reserved,
            self.total_reserved <= self.base().published().len(),
    {
        if self.total_reserved > 0 {
            self.lemma_slot(self.total_reserved - 1);
        }
    }

    /// Covers as many messages as one batch can take, up to `size`.
    pub fn new(
        rx: &'a mut Consumer<T, N>,
        buffer: &'a mut Buffer<T, N>,
        size: usize,
    ) -> (reservation: Self)
        requires
            old(rx).wf(old(buffer)),
        ensures
            reservation.wf(),
            reservation.taken() == 0,
            reservation.total_reserved == if size <= old(buffer).run() {
                size as int
            } else {
                old(buffer).run()
            },
            reservation.reader().slot_ptr == old(buffer).resume_ptr(),
            reservation.reader().has_looked(
                &reservation.base(),
                old(rx),
                old(buffer),
                old(rx).looks_further(old(buffer)),
            ),
            reservation.base() == (Buffer {
                interruptions: reservation.base().interruptions,
                progress: reservation.base().progress,
                ..*old(buffer)
            }),
            forall|tx: Producer<T, N>| tx.wf(old(buffer)) ==> tx.wf(&reservation.base()),
            *final(reservation.rx) == *final(rx),
            *final(reservation.buffer) == *final(buffer),
    {
        let used = rx.continuous_used(buffer);
        let total_reserved: usize = size.min(used);
        proof {
            buffer.lemma_head_and_tail();
            buffer.lemma_reach();
            buffer.lemma_flat_bound(rx.slot_ptr);
        }
        let from_abs_index: usize = rx.slot_ptr.cl_index * N + rx.slot_ptr.cl_offset;
        let s1_remaining: usize = if total_reserved <= buffer.capacity - from_abs_index {
            total_reserved
        } else {
            buffer.capacity - from_abs_index
        };
        RecvReservation {
            rx,
            buffer,
            s1: from_abs_index,
            s1_remaining,
            s2: 0,
            s2_remaining: total_reserved - s1_remaining,
            total_reserved,
        }
    }

    /// Takes the next message, if there is one left.
    pub fn recv(&mut self) -> (outcome: Option<T>)
        requires
            old(self).wf(),
        ensures
            final(self).wf(),
            final(self).base() == old(self).base(),
            final(self).reader() == old(self).reader(),
            final(self).total_reserved == old(self).total_reserved,
            old(self).remaining() == 0 ==> outcome == None::<T> && final(self).taken() == old(
                self,
            ).taken(),
            old(self).remaining() > 0 ==> {
                &&& outcome == Some(old(self).base().published()[old(self).taken()])
                &&& final(self).taken() == old(self).taken() + 1
            },
            *final(final(self).rx) == *final(old(self).rx),
            *final(final(self).buffer) == *final(old(self).buffer),
    {
        proof {
            self.lemma_next_slot();
        }
        if self.s1_remaining > 0 {
            let value: T = self.buffer.slots[self.s1].unwrap();
            self.s1 = self.s1 + 1;
            self.s1_remaining = self.s1_remaining - 1;
            Some(value)
        } else if self.s2_remaining > 0 {
            let value: T = self.buffer.slots[self.s2].unwrap();
            self.s2 = self.s2 + 1;
            self.s2_remaining = self.s2_remaining - 1;
            Some(value)
        } else {
            None
        }
    }

    /// Where the next message lies.
    proof fn lemma_next_slot(&self)
        requires
            self.wf(),
        ensures
            self.remaining() > 0 ==> {
                let next = if self.s1_remaining > 0 {
                    self.s1
                } else {
                    self.s2
                };
                &&& next < self.base().slots@.len()
                &&& self.taken() < self.base().published().len()
                &&& self.base().slots@[next as int] == Some(self.base().published()[self.taken()])
            },
    {
        if self.remaining() > 0 {
            self.lemma_slot(self.taken());
        }
    }

    /// Where message number `i` of the reservation lies.
    proof fn lemma_slot(&self, i: int)
        requires
            self.wf(),
            0 <= i < self.total_reserved,
        ensures
            ({
                let start = self.base().read_ptr().flat(N as int);
                let slot = if i < self.first_part() {
                    start + i
                } else {
                    i - self.first_part()
                };
                &&& 0 <= slot < self.base().slots@.len()
                &&& i < self.base().published().len()
                &&& self.base().slots@[slot] == Some(self.base().published()[i])
            }),
    {
        let base = self.base();
        base.lemma_head_and_tail();
        base.lemma_reach();
        base.lemma_flat_bound(base.read_ptr());
        base.lemma_readable(i);
        math::lemma_wrap_once(base.read_ptr().flat(N as int) + i, base.capacity as int);
    }

    /// The messages that are left.
    #[must_use]
    pub fn as_slices(&self) -> (parts: (&[Option<T>], &[Option<T>]))
        requires
            self.wf(),
        ensures
            parts.0@.len() == self.s1_remaining,
            parts.1@.len() == self.s2_remaining,
            transitions::filled(parts.0@),
            transitions::filled(parts.1@),
            transitions::contents(parts.0@) + transitions::contents(parts.1@)
                == self.base().published().subrange(self.taken(), self.total_reserved as int),
    {
        let ghost slots = self.base().slots@;
        let ghost base = self.base();
        proof {
            base.lemma_head_and_tail();
            base.lemma_reach();
            base.lemma_flat_bound(base.read_ptr());
            if self.total_reserved > 0 {
                self.lemma_slot(self.total_reserved - 1);
            }
        }
        let (low, high) = if self.s1_remaining > 0 {
            self.buffer.slots.as_slice().split_at(self.s1)
        } else {
            self.buffer.slots.as_slice().split_at(0)
        };
        let (first, _rest) = high.split_at(self.s1_remaining);
        let (_before, rest) = self.buffer.slots.as_slice().split_at(self.s2);
        let (second, _rest) = rest.split_at(self.s2_remaining);
        proof {
            let taken = self.taken();
            assert forall|i: int| 0 <= i < first@.len() implies (#[trigger] first@[i]) == Some(
                base.published()[taken + i],
            ) by {
                self.lemma_slot(taken + i);
            }
            assert forall|i: int| 0 <= i < second@.len() implies (#[trigger] second@[i]) == Some(
                base.published()[taken + first@.len() + i],
            ) by {
                self.lemma_slot(taken + first@.len() + i);
            }
            assert(transitions::contents(first@) + transitions::contents(second@)
                =~= base.published().subrange(taken, self.total_reserved as int));
        }
        (first, second)
    }

    /// Takes as many messages as `dst` has room for and as are left, into the
    /// start of `dst`.
    pub fn recv_slice(&mut self, dst: &mut [T]) -> (count: usize)
        requires
            old(self).wf(),
        ensures
            final(self).wf(),
            final(self).base() == old(self).base(),
            final(self).reader() == old(self).reader(),
            final(self).total_reserved == old(self).total_reserved,
            count == if old(dst)@.len() <= old(self).remaining() {
                old(dst)@.len() as int
            } else {
                old(self).remaining()
            },
            final(self).taken() == old(self).taken() + count,
            final(dst)@ == old(self).base().published().subrange(
                old(self).taken(),
                old(self).taken() + count,
            ) + old(dst)@.skip(count as int),
            *final(final(self).rx) == *final(old(self).rx),
            *final(final(self).buffer) == *final(old(self).buffer),
    {
        let ghost base = self.base();
        let ghost taken = self.taken();
        proof {
            base.lemma_reach();
            if self.total_reserved > 0 {
                self.lemma_slot(self.total_reserved - 1);
            }
        }
        let left: usize = self.s1_remaining + self.s2_remaining;
        let to_copy: usize = dst.len().min(left);
        let mut copied: usize = 0;
        while copied < to_copy
            invariant
                copied <= to_copy <= old(dst)@.len(),
                to_copy <= old(self).remaining(),
                dst@.len() == old(dst)@.len(),
                self.wf(),
                self.base() == base,
                base == old(self).base(),
                self.reader() == old(self).reader(),
                self.total_reserved == old(self).total_reserved,
                taken == old(self).taken(),
                self.taken() == taken + copied,
                forall|j: int| 0 <= j < copied ==> dst@[j] == base.published()[taken + j],
                forall|j: int| copied <= j < dst@.len() ==> dst@[j] == old(dst)@[j],
                *final(self.rx) == *final(old(self).rx),
                *final(self.buffer) == *final(old(self).buffer),
            decreases to_copy - copied,
        {
            if let Some(value) = self.recv() {
                dst[copied] = value;
            }
            copied = copied + 1;
        }
        assert(dst@ =~= base.published().subrange(taken, taken + to_copy) + old(dst)@.skip(
            to_copy as int,
        ));
        to_copy
    }

    /// Counts the messages that were taken as received. Ends the reservation.
    pub fn finalize_reservation(self)
        requires
            self.wf(),
        ensures
            final(self.rx).wf(final(self.buffer)),
            final(self.buffer).log@ == self.base().log@.recv(self.taken()),
            final(self.buffer).received_from(&self.base()),
            self.base().free() <= final(self.buffer).free(),
            final(self.buffer).slots == self.base().slots,
            final(self.buffer).interruptions == self.base().interruptions,
            final(self.rx).cached_cl_write == self.reader().cached_cl_write,
            self.taken() == 0 ==> *final(self.buffer) == self.base() && *final(self.rx)
                == self.reader(),
            self.taken() > 0 ==> {
                &&& final(self.rx).slot_ptr == self.base().advanced(
                    self.reader().slot_ptr,
                    self.taken(),
                )
                &&& final(self.buffer).tail == final(self.rx).slot_ptr.cl_index
                &&& final(self.buffer).reads_on()
            },
            forall|tx: Producer<T, N>| tx.wf(&self.base()) ==> tx.wf(final(self.buffer)),
    {
        let total_remaining: usize = self.s1_remaining + self.s2_remaining;
        let total_received: usize = self.total_reserved - total_remaining;
        if total_received == 0 {
            return;
        }
        self.rx.advance(self.buffer, total_received);
    }
}

} // verus!
