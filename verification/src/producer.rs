//! The sending end.

use crate::buffer;
use crate::buffer::Buffer;
use crate::consumer::Consumer;
use crate::math;
use crate::slot_ptr::SlotPtr;
use crate::spinlock::Spinlock;
use crate::transitions;
use core::marker::PhantomData;
use vstd::prelude::*;

verus! {

/// Why nothing was sent.
#[derive(Debug, PartialEq, Eq, Structural)]
pub enum Error {
    QueueFull,
    BatchTooLarge,
}

/// The sending end of a queue.
pub struct Producer<T, const N: usize> {
    pub slot_ptr: SlotPtr,
    pub cached_cl_read: SlotPtr,
    pub cached_line: Ghost<int>,
    pub marker: PhantomData<T>,
}

impl<T, const N: usize> Producer<T, N> {
    /// Whether this is the sending end of `buffer`: it stands where the pending
    /// messages end, and `tail` has not fallen behind what it remembers of it.
    pub open spec fn wf(&self, buffer: &Buffer<T, N>) -> bool {
        &&& buffer.wf()
        &&& self.slot_ptr.cl_index == buffer.head
        &&& self.slot_ptr.cl_offset == buffer.pending().len()
        &&& self.cached_cl_read.cl_index == self.cached_line@ % buffer.lines()
        &&& self.cached_cl_read.cl_offset == N
        &&& self.cached_line@ <= buffer.progress@.tail_line
        &&& buffer.log@.write_line() - self.cached_line@ <= buffer.gap_limit()
    }

    /// Whether the producer knows how far the consumer has come.
    pub open spec fn up_to_date(&self, buffer: &Buffer<T, N>) -> bool {
        self.cached_line@ == buffer.progress@.tail_line
    }

    /// Whether the producer stands on the ring, wherever that is.
    pub open spec fn on(&self, buffer: &Buffer<T, N>) -> bool {
        buffer.laid_out() && buffer.on_ring(self.slot_ptr)
    }

    /// What the producer remembers of `tail` after a step: it looks at `tail` only
    /// to leave its line, and only if it remembers the next line as taken.
    pub open spec fn looked_back(&self, buffer: &Buffer<T, N>, leaving: bool) -> SlotPtr {
        if leaving && (self.slot_ptr.cl_index + 1) % buffer.lines()
            == self.cached_cl_read.cl_index {
            SlotPtr { cl_index: buffer.tail, cl_offset: N }
        } else {
            self.cached_cl_read
        }
    }

    /// Whether this end and `buffer` are what sending `items` makes of the end
    /// `was` and of `before`: the messages are accepted, each lies in its slot
    /// behind what was pending, and no other slot has changed.
    pub open spec fn has_sent(
        &self,
        buffer: &Buffer<T, N>,
        was: &Self,
        before: &Buffer<T, N>,
        items: Seq<T>,
    ) -> bool {
        &&& self.wf(buffer)
        &&& buffer.log@ == before.log@.send(items, N as int)
        &&& buffer.free() == before.free() - items.len()
        &&& buffer.sent_into(before)
        &&& items.len() > 0 ==> self.slot_ptr == before.advanced(
            was.slot_ptr,
            items.len() as int,
        )
        &&& transitions::written(
            before.slots@,
            buffer.slots@,
            was.slot_ptr.flat(N as int),
            items,
            items.len() as int,
        )
    }

    /// Whether `with` can be run on the slots of the next `count` messages, as they
    /// are. It need not be fit to be run on any other slots.
    pub open spec fn can_fill<F>(&self, buffer: &Buffer<T, N>, count: int, with: F) -> bool where
        F: FnOnce(&mut [Option<T>], &mut [Option<T>]),
     {
        let from = self.slot_ptr.flat(N as int);
        let first = buffer.unwrapped(self.slot_ptr, count);
        forall|s1: &mut [Option<T>], s2: &mut [Option<T>]|
            #![trigger call_requires(with, (s1, s2))]
            {
                &&& s1@.len() == first && s2@.len() == count - first
                &&& s1@ == buffer.slots@.subrange(from, from + first)
                &&& s2@ == buffer.slots@.subrange(0, count - first)
            } ==> call_requires(with, (s1, s2))
    }

    /// What `with` has to be able to do for a batch of which as much is sent as
    /// fits: nothing, if nothing fits.
    pub open spec fn can_serve<F>(&self, buffer: &Buffer<T, N>, size: int, with: F) -> bool where
        F: FnOnce(&mut [Option<T>], &mut [Option<T>]),
     {
        let count = math::least(size, buffer.capacity - N, buffer.free());
        count > 0 ==> self.can_fill(buffer, count, with)
    }

    /// What `with` has to be able to do for a batch that is sent whole or not at
    /// all: nothing, if it is not sent.
    pub open spec fn can_serve_exactly<F>(
        &self,
        buffer: &Buffer<T, N>,
        size: int,
        with: F,
    ) -> bool where F: FnOnce(&mut [Option<T>], &mut [Option<T>]) {
        size <= buffer.capacity - N && size <= buffer.free() ==> self.can_fill(buffer, size, with)
    }

    pub(crate) fn new(buffer: &Buffer<T, N>) -> (producer: Self)
        ensures
            producer.slot_ptr == (SlotPtr { cl_index: 0, cl_offset: 0 }),
            producer.cached_cl_read == (SlotPtr { cl_index: buffer.cl_mask, cl_offset: N }),
            producer.cached_line@ == -1,
    {
        Producer {
            slot_ptr: SlotPtr::from((0, 0)),
            cached_cl_read: SlotPtr::from((buffer.cl_mask, N)),
            cached_line: Ghost(-1),
            marker: PhantomData,
        }
    }

    /// Sends `value`. Waits as long as the queue is full, so there has to be room:
    /// nobody else can receive from `buffer` in the meantime.
    pub fn send(&mut self, buffer: &mut Buffer<T, N>, value: T)
        requires
            old(self).wf(old(buffer)),
            old(buffer).free() > 0,
        ensures
            final(self).has_sent(final(buffer), old(self), old(buffer), seq![value]),
            forall|rx: Consumer<T, N>| rx.wf(old(buffer)) ==> rx.wf(final(buffer)),
            final(self).cached_cl_read == old(self).looked_back(
                old(buffer),
                old(self).slot_ptr.cl_offset == N,
            ),
            final(buffer).slots@ == old(buffer).slots@.update(
                final(self).slot_ptr.flat(N as int) - 1,
                Some(value),
            ),
    {
        let mut spinlock = Spinlock::new();
        let mut value = value;
        let ghost sent = value;
        loop
            invariant_except_break
                *self == *old(self),
                *buffer == *old(buffer),
                value == sent,
            invariant
                old(self).wf(old(buffer)),
                old(buffer).free() > 0,
            ensures
                self.has_sent(buffer, old(self), old(buffer), seq![sent]),
                forall|rx: Consumer<T, N>| rx.wf(old(buffer)) ==> rx.wf(buffer),
                self.cached_cl_read == old(self).looked_back(
                    old(buffer),
                    old(self).slot_ptr.cl_offset == N,
                ),
                buffer.slots@ == old(buffer).slots@.update(
                    self.slot_ptr.flat(N as int) - 1,
                    Some(sent),
                ),
            decreases 0nat,
        {
            match self.try_send(buffer, value) {
                Ok(()) => break,
                Err((returned_value, _)) => {
                    value = returned_value;
                    spinlock.spin_heavy();
                },
            }
        }
    }

    /// Sends `value`, if there is room for it.
    ///
    /// Where the producer goes, and what it writes, depends on nothing but the
    /// pointers.
    pub fn try_send(&mut self, buffer: &mut Buffer<T, N>, value: T) -> (outcome: Result<
        (),
        (T, Error),
    >)
        requires
            old(self).wf(old(buffer)) || old(self).on(old(buffer)),
        ensures
            old(self).wf(old(buffer)) ==> {
                &&& final(self).wf(final(buffer))
                &&& old(buffer).free() == 0 ==> outcome == Err::<(), (T, Error)>(
                    (value, Error::QueueFull),
                )
                &&& old(buffer).free() > 0 ==> {
                    &&& outcome == Ok::<(), (T, Error)>(())
                    &&& final(self).has_sent(final(buffer), old(self), old(buffer), seq![value])
                }
                &&& forall|rx: Consumer<T, N>| rx.wf(old(buffer)) ==> rx.wf(final(buffer))
            },
            final(self).cached_cl_read == old(self).looked_back(
                old(buffer),
                old(self).slot_ptr.cl_offset == N,
            ),
            ({
                let ptr = old(self).slot_ptr;
                let next = (ptr.cl_index + 1) % old(buffer).lines();
                if ptr.cl_offset == N && next == final(self).cached_cl_read.cl_index {
                    &&& outcome == Err::<(), (T, Error)>((value, Error::QueueFull))
                    &&& *final(buffer) == *old(buffer)
                    &&& final(self).slot_ptr == ptr
                } else {
                    &&& outcome == Ok::<(), (T, Error)>(())
                    &&& final(self).slot_ptr == if ptr.cl_offset == N {
                        SlotPtr { cl_index: next as usize, cl_offset: 1 }
                    } else {
                        SlotPtr { cl_offset: (ptr.cl_offset + 1) as usize, ..ptr }
                    }
                    &&& final(buffer).head == if ptr.cl_offset == N {
                        next as usize
                    } else {
                        old(buffer).head
                    }
                    &&& final(buffer).slots@ == old(buffer).slots@.update(
                        final(self).slot_ptr.flat(N as int) - 1,
                        Some(value),
                    )
                    &&& final(buffer).sent_into(old(buffer))
                }
            }),
    {
        let ghost before = *buffer;
        let ghost n = N as int;
        let ghost valid = self.wf(buffer);
        let curr_head = self.slot_ptr.cl_index;
        let curr_cl_head = self.slot_ptr.cl_offset;
        proof {
            if valid {
                before.lemma_head_and_tail();
                before.lemma_free();
                before.log@.law_send(seq![value], n);
                before.lemma_spare_line();
            }
            before.lemma_flat_bound(self.slot_ptr);
            before.lemma_line_mask((curr_head + 1) as usize);
        }
        // slow path when trying to wrap around at a cache line border
        if curr_cl_head == N {
            let next_head: usize = (curr_head + 1) & buffer.cl_mask;
            if next_head == self.cached_cl_read.cl_index {
                self.refresh_cached_cl_read(buffer);
            }
            if next_head == self.cached_cl_read.cl_index {
                proof {
                    if valid {
                        self.lemma_cached_line_reached(buffer);
                    }
                }
                return Err((value, Error::QueueFull));
            }
            proof {
                before.lemma_slot_bound(next_head, 0);
                if valid {
                    self.lemma_cached_line_not_reached(buffer);
                    before.lemma_next_line_start();
                }
            }
            buffer.slots[next_head * N] = Some(value);
            self.slot_ptr.set(next_head, 1);
            // Hand the line that was filled to the consumer
            buffer.head = next_head;
        }
        // fast path for the currently exclusively owned cache line
         else {
            proof {
                before.lemma_slot_bound(curr_head, curr_cl_head);
            }
            buffer.slots[curr_head * N + curr_cl_head] = Some(value);
            self.slot_ptr.cl_offset = curr_cl_head + 1;
        }
        proof {
            buffer.log@ = before.log@.send(seq![value], n);
            if valid {
                transitions::lemma_written_first(
                    before.slots@,
                    before.head * n + before.pending().len(),
                    value,
                );
                before.lemma_send_one(value);
                before.lemma_write_ptr_advanced(seq![value]);
                assert(old(self).slot_ptr == before.write_ptr());
                Buffer::lemma_send(&before, buffer, seq![value]);
            }
        }
        Ok(())
    }

    /// Sends as much of `buf` as there is room for, from its start.
    pub fn try_send_batch(&mut self, buffer: &mut Buffer<T, N>, buf: &[T]) -> (outcome: Result<
        usize,
        Error,
    >) where T: Copy
        requires
            old(self).wf(old(buffer)),
        ensures
            final(self).wf(final(buffer)),
            forall|rx: Consumer<T, N>| rx.wf(old(buffer)) ==> rx.wf(final(buffer)),
            final(self).cached_cl_read == (SlotPtr { cl_index: old(buffer).tail, cl_offset: N }),
            ({
                let size = math::least(
                    buf@.len() as int,
                    old(buffer).capacity - N,
                    old(buffer).free(),
                );
                if size == 0 {
                    &&& outcome == Err::<usize, Error>(Error::QueueFull)
                    &&& *final(buffer) == *old(buffer)
                } else {
                    &&& outcome == Ok::<usize, Error>(size as usize)
                    &&& final(self).has_sent(
                        final(buffer),
                        old(self),
                        old(buffer),
                        buf@.take(size),
                    )
                }
            }),
    {
        proof {
            buffer.lemma_free();
            buffer.lemma_capacity();
        }
        let final_batch_size: usize = match self.clamp_batch_size(buffer, buf.len()) {
            Ok(size) => size,
            Err(error) => return Err(error),
        };
        assert(buf@.subrange(0, final_batch_size as int) =~= buf@.take(final_batch_size as int));
        Ok(self.send_batch_exact_unchecked(buffer, &buf[0..final_batch_size]))
    }

    /// Sends all of `buf` or nothing. Sending an empty batch changes nothing.
    pub fn try_send_batch_exact(&mut self, buffer: &mut Buffer<T, N>, buf: &[T]) -> (outcome:
        Result<usize, Error>) where T: Copy
        requires
            old(self).wf(old(buffer)),
        ensures
            final(self).wf(final(buffer)),
            forall|rx: Consumer<T, N>| rx.wf(old(buffer)) ==> rx.wf(final(buffer)),
            final(self).cached_cl_read == (SlotPtr { cl_index: old(buffer).tail, cl_offset: N }),
            buf@.len() > old(buffer).capacity - N ==> {
                &&& outcome == Err::<usize, Error>(Error::BatchTooLarge)
                &&& *final(buffer) == *old(buffer)
            },
            old(buffer).free() < buf@.len() <= old(buffer).capacity - N ==> {
                &&& outcome == Err::<usize, Error>(Error::QueueFull)
                &&& *final(buffer) == *old(buffer)
            },
            buf@.len() <= old(buffer).capacity - N && buf@.len() <= old(buffer).free() ==> {
                &&& outcome == Ok::<usize, Error>(buf@.len() as usize)
                &&& final(self).has_sent(final(buffer), old(self), old(buffer), buf@)
                &&& buf@.len() == 0 ==> *final(buffer) == *old(buffer)
            },
    {
        match self.validate_batch_size_exact(buffer, buf.len()) {
            Ok(_) => {},
            Err(error) => return Err(error),
        }
        if buf.len() == 0 {
            proof {
                self.lemma_nothing_sent(old(self), buffer, buf@);
            }
            return Ok(0);
        }
        Ok(self.send_batch_exact_unchecked(buffer, buf))
    }

    /// Doing nothing is sending nothing.
    proof fn lemma_nothing_sent(&self, was: &Self, buffer: &Buffer<T, N>, items: Seq<T>)
        requires
            self.wf(buffer),
            was.slot_ptr == self.slot_ptr,
            items.len() == 0,
        ensures
            self.has_sent(buffer, was, buffer, items),
    {
        buffer.lemma_send_nothing(items);
        transitions::lemma_written_nothing(buffer.slots@, was.slot_ptr.flat(N as int));
        assert(items =~= Seq::<T>::empty());
    }

    /// Sends `buf`, which must not be empty and for which there must be room.
    fn send_batch_exact_unchecked(&mut self, buffer: &mut Buffer<T, N>, buf: &[T]) -> (size:
        usize) where T: Copy
        requires
            old(self).wf(old(buffer)),
            old(self).up_to_date(old(buffer)),
            0 < buf@.len() <= old(buffer).free(),
            buf@.len() <= old(buffer).capacity - N,
        ensures
            size == buf@.len(),
            final(self).has_sent(final(buffer), old(self), old(buffer), buf@),
            final(self).cached_cl_read == old(self).cached_cl_read,
    {
        let ghost before = *buffer;
        let batch_size = buf.len();
        proof {
            before.lemma_head_and_tail();
            before.lemma_flat_bound(self.slot_ptr);
            math::lemma_twice_fits(before.capacity);
        }
        let from_abs_index: usize = self.slot_ptr.cl_index * N + self.slot_ptr.cl_offset;
        let capacity = buffer.capacity;
        let ghost start = from_abs_index as int;
        proof {
            transitions::lemma_written_nothing(before.slots@, start);
            assert(buf@.take(0) =~= Seq::<T>::empty());
        }
        let mut i: usize = 0;
        while i < batch_size
            invariant
                i <= batch_size == buf@.len() <= capacity,
                from_abs_index <= capacity,
                from_abs_index + batch_size <= usize::MAX,
                start == from_abs_index,
                before.slots@.len() == capacity,
                transitions::written(
                    before.slots@,
                    buffer.slots@,
                    start,
                    buf@.take(i as int),
                    batch_size as int,
                ),
                *buffer == (Buffer { slots: buffer.slots, ..before }),
            decreases batch_size - i,
        {
            let position: usize = from_abs_index + i;
            let index: usize = if position < capacity {
                position
            } else {
                position - capacity
            };
            proof {
                math::lemma_wrap_once(position as int, capacity as int);
                transitions::lemma_written_push(
                    before.slots@,
                    buffer.slots@,
                    start,
                    buf@.take(i as int),
                    buf@[i as int],
                    batch_size as int,
                );
                assert(buf@.take(i as int).push(buf@[i as int]) =~= buf@.take(i + 1));
            }
            buffer.slots[index] = Some(buf[i]);
            i = i + 1;
        }
        proof {
            assert(buf@.take(batch_size as int) =~= buf@);
            transitions::lemma_written_within(
                before.slots@,
                buffer.slots@,
                start,
                buf@,
                batch_size as int,
                before.free(),
            );
        }
        self.advance(buffer, batch_size, Ghost(before), Ghost(buf@));
        batch_size
    }

    /// Moves on past `size` slots that were filled with `items`.
    pub(crate) fn advance(
        &mut self,
        buffer: &mut Buffer<T, N>,
        size: usize,
        Ghost(before): Ghost<Buffer<T, N>>,
        Ghost(items): Ghost<Seq<T>>,
    )
        requires
            old(self).wf(&before),
            old(self).up_to_date(&before),
            *old(buffer) == (Buffer { slots: old(buffer).slots, ..before }),
            size == items.len(),
            0 < size <= before.free(),
            size <= before.capacity - N,
            transitions::written(
                before.slots@,
                old(buffer).slots@,
                before.head * N + before.pending().len(),
                items,
                before.free(),
            ),
        ensures
            final(self).wf(final(buffer)),
            final(self).slot_ptr == before.advanced(old(self).slot_ptr, size as int),
            final(self).cached_cl_read == old(self).cached_cl_read,
            final(buffer).log@ == before.log@.send(items, N as int),
            final(buffer).free() == before.free() - size,
            final(buffer).sent_into(&before),
            final(buffer).slots == old(buffer).slots,
    {
        proof {
            before.lemma_head_and_tail();
            before.lemma_flat_bound(self.slot_ptr);
            math::lemma_twice_fits(before.capacity);
            assert(buffer.laid_out());
        }
        buffer.advance_slot_ptr(&mut self.slot_ptr, size);
        buffer.head = self.slot_ptr.cl_index;
        proof {
            buffer.log@ = before.log@.send(items, N as int);
            before.lemma_write_ptr_advanced(items);
            assert(before.write_ptr() == old(self).slot_ptr);
            Buffer::lemma_send(&before, buffer, items);
        }
    }

    /// Lets `with` fill the slots of as much of a batch of `size` messages as
    /// there is room for, and sends what it put there.
    ///
    /// The slots come as the part up to the end of the ring and the part from
    /// its start. If nothing fits, `with` is not run.
    pub fn try_send_with<F>(&mut self, buffer: &mut Buffer<T, N>, size: usize, with: F) -> (outcome:
        Result<usize, Error>) where F: FnOnce(&mut [Option<T>], &mut [Option<T>])
        requires
            old(self).wf(old(buffer)),
            old(self).can_serve(old(buffer), size as int, with),
            forall|s1: &mut [Option<T>], s2: &mut [Option<T>]|
                #![trigger call_ensures(with, (s1, s2), ())]
                call_ensures(with, (s1, s2), ()) ==> {
                    &&& final(s1)@.len() == s1@.len() && transitions::filled(final(s1)@)
                    &&& final(s2)@.len() == s2@.len() && transitions::filled(final(s2)@)
                },
        ensures
            final(self).wf(final(buffer)),
            forall|rx: Consumer<T, N>| rx.wf(old(buffer)) ==> rx.wf(final(buffer)),
            final(self).cached_cl_read == (SlotPtr { cl_index: old(buffer).tail, cl_offset: N }),
            ({
                let count = math::least(size as int, old(buffer).capacity - N, old(buffer).free());
                let from = old(self).slot_ptr.flat(N as int);
                let first = old(buffer).unwrapped(old(self).slot_ptr, count);
                if count == 0 {
                    &&& outcome == Err::<usize, Error>(Error::QueueFull)
                    &&& *final(buffer) == *old(buffer)
                } else {
                    &&& outcome == Ok::<usize, Error>(count as usize)
                    &&& exists|s1: &mut [Option<T>], s2: &mut [Option<T>]|
                        #![trigger call_ensures(with, (s1, s2), ())]
                        {
                            &&& call_ensures(with, (s1, s2), ())
                            &&& s1@.len() == first
                            &&& s2@.len() == count - first
                            &&& s1@ == old(buffer).slots@.subrange(from, from + first)
                            &&& s2@ == old(buffer).slots@.subrange(0, count - first)
                            &&& final(self).has_sent(
                                final(buffer),
                                old(self),
                                old(buffer),
                                transitions::contents(final(s1)@) + transitions::contents(
                                    final(s2)@,
                                ),
                            )
                        }
                }
            }),
    {
        let ghost before = *buffer;
        proof {
            buffer.lemma_free();
            buffer.lemma_capacity();
            buffer.lemma_head_and_tail();
            buffer.lemma_flat_bound(self.slot_ptr);
        }
        let size: usize = match self.clamp_batch_size(buffer, size) {
            Ok(size) => size,
            Err(error) => return Err(error),
        };
        let (s1, s2) = buffer.as_slice_mut(self.slot_ptr, size);
        with(s1, s2);
        let ghost first = s1@;
        let ghost second = s2@;
        proof {
            transitions::lemma_written_parts(
                before.slots@,
                buffer.slots@,
                before.head * N + before.pending().len(),
                first,
                second,
            );
        }
        self.advance(
            buffer,
            size,
            Ghost(before),
            Ghost(transitions::contents(first) + transitions::contents(second)),
        );
        Ok(size)
    }

    /// Lets `with` fill the slots of a batch of `size` messages, if there is room
    /// for all of them, and sends what it put there. If there is not, `with` is not
    /// run. An empty batch has two empty parts, and sending it changes nothing.
    pub fn try_send_exact_with<F>(
        &mut self,
        buffer: &mut Buffer<T, N>,
        size: usize,
        with: F,
    ) -> (outcome: Result<usize, Error>) where F: FnOnce(&mut [Option<T>], &mut [Option<T>])
        requires
            old(self).wf(old(buffer)),
            old(self).can_serve_exactly(old(buffer), size as int, with),
            forall|s1: &mut [Option<T>], s2: &mut [Option<T>]|
                #![trigger call_ensures(with, (s1, s2), ())]
                call_ensures(with, (s1, s2), ()) ==> {
                    &&& final(s1)@.len() == s1@.len() && transitions::filled(final(s1)@)
                    &&& final(s2)@.len() == s2@.len() && transitions::filled(final(s2)@)
                },
        ensures
            final(self).wf(final(buffer)),
            forall|rx: Consumer<T, N>| rx.wf(old(buffer)) ==> rx.wf(final(buffer)),
            final(self).cached_cl_read == (SlotPtr { cl_index: old(buffer).tail, cl_offset: N }),
            size > old(buffer).capacity - N ==> {
                &&& outcome == Err::<usize, Error>(Error::BatchTooLarge)
                &&& *final(buffer) == *old(buffer)
            },
            old(buffer).free() < size <= old(buffer).capacity - N ==> {
                &&& outcome == Err::<usize, Error>(Error::QueueFull)
                &&& *final(buffer) == *old(buffer)
            },
            size <= old(buffer).capacity - N && size <= old(buffer).free() ==> {
                let from = old(self).slot_ptr.flat(N as int);
                let first = old(buffer).unwrapped(old(self).slot_ptr, size as int);
                &&& outcome == Ok::<usize, Error>(size)
                &&& exists|s1: &mut [Option<T>], s2: &mut [Option<T>]|
                    #![trigger call_ensures(with, (s1, s2), ())]
                    {
                        &&& call_ensures(with, (s1, s2), ())
                        &&& s1@.len() == first
                        &&& s2@.len() == size - first
                        &&& s1@ == old(buffer).slots@.subrange(from, from + first)
                        &&& s2@ == old(buffer).slots@.subrange(0, size - first)
                        &&& final(self).has_sent(
                            final(buffer),
                            old(self),
                            old(buffer),
                            transitions::contents(final(s1)@) + transitions::contents(final(s2)@),
                        )
                    }
                &&& size == 0 ==> *final(buffer) == *old(buffer)
            },
    {
        let ghost before = *buffer;
        proof {
            buffer.lemma_free();
            buffer.lemma_capacity();
            buffer.lemma_head_and_tail();
            buffer.lemma_flat_bound(self.slot_ptr);
        }
        let size: usize = match self.validate_batch_size_exact(buffer, size) {
            Ok(size) => size,
            Err(error) => return Err(error),
        };
        if size == 0 {
            let mut first: Vec<Option<T>> = Vec::new();
            let mut second: Vec<Option<T>> = Vec::new();
            let s1 = first.as_mut_slice();
            let s2 = second.as_mut_slice();
            proof {
                let from = self.slot_ptr.flat(N as int);
                assert(s1@ =~= before.slots@.subrange(from, from));
                assert(s2@ =~= before.slots@.subrange(0, 0));
            }
            with(s1, s2);
            proof {
                self.lemma_nothing_sent(
                    old(self),
                    buffer,
                    transitions::contents(s1@) + transitions::contents(s2@),
                );
            }
            return Ok(0);
        }
        let (s1, s2) = buffer.as_slice_mut(self.slot_ptr, size);
        with(s1, s2);
        let ghost first = s1@;
        let ghost second = s2@;
        proof {
            transitions::lemma_written_parts(
                before.slots@,
                buffer.slots@,
                before.head * N + before.pending().len(),
                first,
                second,
            );
        }
        self.advance(
            buffer,
            size,
            Ghost(before),
            Ghost(transitions::contents(first) + transitions::contents(second)),
        );
        Ok(size)
    }

    /// Makes what is pending visible, if there is a free line to go on with.
    pub fn flush(&mut self, buffer: &mut Buffer<T, N>) -> (outcome: Result<(), Error>)
        requires
            old(self).wf(old(buffer)),
        ensures
            final(self).wf(final(buffer)),
            forall|rx: Consumer<T, N>| rx.wf(old(buffer)) ==> rx.wf(final(buffer)),
            final(self).cached_cl_read == old(self).looked_back(
                old(buffer),
                old(self).slot_ptr.cl_offset > 0,
            ),
            old(buffer).pending().len() == 0 ==> {
                &&& outcome == Ok::<(), Error>(())
                &&& *final(buffer) == *old(buffer)
            },
            old(buffer).pending().len() > 0 && old(buffer).spare_lines() == 0 ==> {
                &&& outcome == Err::<(), Error>(Error::QueueFull)
                &&& *final(buffer) == *old(buffer)
            },
            old(buffer).pending().len() > 0 && old(buffer).spare_lines() > 0 ==> {
                &&& outcome == Ok::<(), Error>(())
                &&& final(buffer).log@ == old(buffer).log@.flush()
                &&& final(buffer).free() == old(buffer).free() - (N - old(buffer).pending().len())
                &&& final(self).slot_ptr.cl_index == (old(self).slot_ptr.cl_index + 1) % old(
                    buffer,
                ).lines()
                &&& final(self).slot_ptr.cl_offset == 0
                &&& final(buffer).slots == old(buffer).slots
                &&& final(buffer).interruptions@ == if old(buffer).pending().len() < N {
                    old(buffer).interruptions@.push(old(self).slot_ptr)
                } else {
                    old(buffer).interruptions@
                }
                &&& final(buffer).tail == old(buffer).tail
                &&& final(buffer).capacity == old(buffer).capacity
                &&& final(buffer).cl_mask == old(buffer).cl_mask
            },
    {
        let ghost before = *buffer;
        let curr_cl_index = self.slot_ptr.cl_index;
        let curr_cl_offset = self.slot_ptr.cl_offset;
        if curr_cl_offset == 0 {
            return Ok(());
        }
        proof {
            before.lemma_head_and_tail();
            before.lemma_line_mask((curr_cl_index + 1) as usize);
            before.lemma_spare_lines();
        }
        let next_head: usize = (curr_cl_index + 1) & buffer.cl_mask;
        if next_head == self.cached_cl_read.cl_index {
            self.refresh_cached_cl_read(buffer);
        }
        if next_head == self.cached_cl_read.cl_index {
            proof {
                self.lemma_cached_line_reached(buffer);
            }
            return Err(Error::QueueFull);
        }
        proof {
            self.lemma_cached_line_not_reached(buffer);
        }
        if curr_cl_offset < N {
            buffer.interruptions.push(self.slot_ptr);
            proof {
                buffer.progress@ = buffer::Progress {
                    breaks: before.progress@.breaks.push(before.log@.write_line()),
                    ..before.progress@
                };
            }
        }
        self.slot_ptr.set(next_head, 0);
        buffer.head = next_head;
        proof {
            buffer.log@ = before.log@.flush();
            math::lemma_mod_shift(before.log@.write_line(), 1, before.lines());
            assert(old(self).slot_ptr == before.write_ptr());
            Buffer::lemma_flush(&before, buffer);
            before.log@.law_flush(N as int);
        }
        Ok(())
    }

    /// How many messages can be sent, going by the last look at the consumer.
    fn continuous_free(&self, buffer: &Buffer<T, N>) -> (free: usize)
        requires
            self.wf(buffer),
        ensures
            self.up_to_date(buffer) ==> free == buffer.free(),
            free <= buffer.free(),
    {
        let head_cl_index = self.slot_ptr.cl_index;
        let head_cl_offset = self.slot_ptr.cl_offset;
        let cached_cl_index = self.cached_cl_read.cl_index;
        proof {
            buffer.lemma_head_and_tail();
            buffer.lemma_free();
            self.lemma_cached_spare_lines(buffer);
        }
        let free_cache_lines: usize = cached_cl_index.wrapping_sub(head_cl_index).wrapping_sub(1)
            & buffer.cl_mask;
        let free_slots_total: usize = free_cache_lines * N;
        let free_slots_curr_cl: usize = N - head_cl_offset;
        free_slots_total + free_slots_curr_cl
    }

    /// Free lines as far as the last look at the consumer tells.
    proof fn lemma_cached_spare_lines(&self, buffer: &Buffer<T, N>)
        requires
            self.wf(buffer),
        ensures
            ({
                let spare = self.cached_cl_read.cl_index.wrapping_sub(
                    self.slot_ptr.cl_index,
                ).wrapping_sub(1) & buffer.cl_mask;
                &&& spare == buffer.gap_limit() - (buffer.log@.write_line() - self.cached_line@)
                &&& 0 <= spare <= buffer.spare_lines()
                &&& 0 <= spare * N <= buffer.spare_lines() * N
                &&& self.up_to_date(buffer) ==> spare == buffer.spare_lines()
            }),
    {
        let c = buffer.lines();
        let w = buffer.log@.write_line();
        let line = self.cached_line@;
        let cached = self.cached_cl_read.cl_index;
        let head = self.slot_ptr.cl_index;
        let d = cached.wrapping_sub(head);
        buffer.lemma_head_and_tail();
        buffer.lemma_spare_lines();
        buffer.lemma_line_mask(d);
        math::lemma_masked_difference(cached, head, c as usize);
        math::lemma_mask_is_mod(d, c as usize);
        math::lemma_mod_shift(d as int, -1, c);
        math::lemma_mod_shift(cached - head, -1, c);
        math::lemma_ring_distance_wraps(w, line, c);
        math::lemma_mod_shift(line - w, -1, c);
        assert((d - 1) % c == (line - w - 1) % c);
        let spare = c - 1 - (w - line);
        if c > 1 {
            vstd::arithmetic::div_mod::lemma_fundamental_div_mod_converse(
                line - w - 1,
                c,
                -1,
                spare,
            );
        }
        let s = (d - 1) % c;
        let t = buffer.spare_lines();
        assert(0 <= s * N <= t * N) by (nonlinear_arith)
            requires
                0 <= s <= t,
        ;
    }

    /// Takes a fresh look at the consumer and cuts a batch down to what fits.
    pub(crate) fn clamp_batch_size(&mut self, buffer: &Buffer<T, N>, requested: usize) -> (size: Result<
        usize,
        Error,
    >)
        requires
            old(self).wf(buffer),
        ensures
            final(self).wf(buffer),
            final(self).up_to_date(buffer),
            final(self).slot_ptr == old(self).slot_ptr,
            final(self).cached_cl_read == (SlotPtr { cl_index: buffer.tail, cl_offset: N }),
            size == if math::least(requested as int, buffer.capacity - N, buffer.free()) == 0 {
                Err(Error::QueueFull)
            } else {
                Ok(math::least(requested as int, buffer.capacity - N, buffer.free()) as usize)
            },
    {
        self.refresh_cached_cl_read(buffer);
        proof {
            buffer.lemma_capacity();
        }
        buffer::clamp_batch_size(
            requested,
            buffer.max_size(),
            self.continuous_free(buffer),
            Error::QueueFull,
        )
    }

    /// Takes a fresh look at the consumer and checks that a batch fits.
    fn validate_batch_size_exact(&mut self, buffer: &Buffer<T, N>, requested: usize) -> (size:
        Result<usize, Error>)
        requires
            old(self).wf(buffer),
        ensures
            final(self).wf(buffer),
            final(self).up_to_date(buffer),
            final(self).slot_ptr == old(self).slot_ptr,
            final(self).cached_cl_read == (SlotPtr { cl_index: buffer.tail, cl_offset: N }),
            size == if requested > buffer.capacity - N {
                Err(Error::BatchTooLarge)
            } else if requested > buffer.free() {
                Err(Error::QueueFull)
            } else {
                Ok(requested)
            },
    {
        self.refresh_cached_cl_read(buffer);
        proof {
            buffer.lemma_capacity();
        }
        buffer::validate_exact_batch_size(
            requested,
            buffer.max_size(),
            self.continuous_free(buffer),
            Error::QueueFull,
            Error::BatchTooLarge,
        )
    }

    /// Looks up how far the consumer has come.
    fn refresh_cached_cl_read(&mut self, buffer: &Buffer<T, N>)
        ensures
            old(self).wf(buffer) ==> final(self).wf(buffer),
            final(self).slot_ptr == old(self).slot_ptr,
            final(self).cached_cl_read == (SlotPtr { cl_index: buffer.tail, cl_offset: N }),
            final(self).up_to_date(buffer),
    {
        let curr_tail = buffer.tail;
        self.cached_cl_read.set(curr_tail, N);
        self.cached_line = Ghost(buffer.progress@.tail_line);
    }

    /// If the next line is the one that was last seen to be held by the
    /// consumer even after a fresh look, then no line is free.
    proof fn lemma_cached_line_reached(&self, buffer: &Buffer<T, N>)
        requires
            self.wf(buffer),
            self.up_to_date(buffer),
            (buffer.head + 1) % buffer.lines() == self.cached_cl_read.cl_index,
        ensures
            buffer.spare_lines() == 0,
    {
        buffer.lemma_head_and_tail();
        buffer.lemma_spare_line();
    }

    /// If the next line is not the one that was last seen to be held by the
    /// consumer, then it is free, however old that look is.
    proof fn lemma_cached_line_not_reached(&self, buffer: &Buffer<T, N>)
        requires
            self.wf(buffer),
            (buffer.head + 1) % buffer.lines() != self.cached_cl_read.cl_index,
        ensures
            buffer.spare_lines() > 0,
            buffer.log@.write_line() + 1 - self.cached_line@ <= buffer.gap_limit(),
    {
        buffer.lemma_head_and_tail();
        buffer.lemma_spare_lines();
        let c = buffer.lines();
        let w = buffer.log@.write_line();
        math::lemma_mod_shift(w, 1, c);
        if w + 1 - self.cached_line@ > buffer.gap_limit() {
            if c > 1 {
                vstd::arithmetic::div_mod::lemma_mod_add_multiples_vanish(self.cached_line@, c);
            } else {
                assert((buffer.head + 1) % c == 0);
                assert(self.cached_line@ % c == 0);
            }
        }
    }

    /// Sending one message accepts it behind all others, and writes its slot and no
    /// other. It stays in the producer's line if there is room in it, and releases
    /// the line and opens the next one if there is not.
    pub proof fn law_sends_one(
        was: &Self,
        before: &Buffer<T, N>,
        value: T,
        tx: &Self,
        after: &Buffer<T, N>,
    )
        requires
            was.wf(before),
            before.free() > 0,
            tx.has_sent(after, was, before, seq![value]),
        ensures
            tx.wf(after),
            after.log@.messages == before.log@.messages.push(value),
            after.log@.read == before.log@.read,
            was.slot_ptr.cl_offset < N ==> {
                &&& after.log@.starts == before.log@.starts
                &&& tx.slot_ptr.cl_index == was.slot_ptr.cl_index
                &&& tx.slot_ptr.cl_offset == was.slot_ptr.cl_offset + 1
            },
            was.slot_ptr.cl_offset == N ==> {
                &&& after.log@.starts == before.log@.starts.push(before.log@.messages.len() as int)
                &&& tx.slot_ptr.cl_index == (was.slot_ptr.cl_index + 1) % (before.cl_mask + 1)
                &&& tx.slot_ptr.cl_offset == 1
            },
            after.head == tx.slot_ptr.cl_index,
            after.tail == before.tail,
            after.slots@ == before.slots@.update(
                tx.slot_ptr.cl_index * N + tx.slot_ptr.cl_offset - 1,
                Some(value),
            ),
            after.interruptions@ == before.interruptions@,
            after.cl_mask == before.cl_mask,
            after.capacity == before.capacity,
            after.free() == before.free() - 1,
    {
        let n = N as int;
        let log = before.log@;
        let start = was.slot_ptr.flat(n);
        let size = before.slots@.len() as int;
        before.lemma_head_and_tail();
        before.lemma_capacity();
        before.lemma_send_one(value);
        log.lemma_starts_ordered(0, log.write_line(), n);
        log.law_send(seq![value], n);
        assert(log.messages + seq![value] =~= log.messages.push(value));
        if was.slot_ptr.cl_offset < N {
            assert(after.log@.starts =~= log.starts);
            before.lemma_slot_bound(was.slot_ptr.cl_index, was.slot_ptr.cl_offset);
        } else {
            assert(after.log@.starts[log.starts.len() as int] == log.starts.last() + (0 + 1) * n);
            assert(after.log@.starts =~= log.starts.push(log.messages.len() as int));
            before.lemma_next_line_start();
        }
        transitions::lemma_written_first(before.slots@, start, value);
        transitions::lemma_written_once(
            before.slots@,
            before.slots@.update(start % size, Some(value)),
            after.slots@,
            start,
            seq![value],
        );
    }

    /// A producer that can go on within its line, or that remembers the next line
    /// as free, does not look at `tail`; one that remembers it as taken does.
    pub proof fn law_looks_back(&self, buffer: &Buffer<T, N>)
        ensures
            self.looked_back(buffer, false) == self.cached_cl_read,
            (self.slot_ptr.cl_index + 1) % (buffer.cl_mask + 1) != self.cached_cl_read.cl_index
                ==> self.looked_back(buffer, true) == self.cached_cl_read,
            (self.slot_ptr.cl_index + 1) % (buffer.cl_mask + 1) == self.cached_cl_read.cl_index
                ==> self.looked_back(buffer, true) == (SlotPtr {
                cl_index: buffer.tail,
                cl_offset: N,
            }),
    {
    }

    /// A producer stands on the ring wherever its pointer is on it.
    pub proof fn law_stands_on_ring(&self, buffer: &Buffer<T, N>)
        requires
            buffer.laid_out(),
            self.slot_ptr.cl_index <= buffer.cl_mask,
            self.slot_ptr.cl_offset <= N,
        ensures
            self.on(buffer),
    {
    }

    /// A batch that is refused runs nothing: it can be tried with a closure that
    /// must never be run, and so with one that is still to be run later.
    pub proof fn law_refused_batch_runs_nothing<F>(
        &self,
        buffer: &Buffer<T, N>,
        size: int,
        with: F,
    ) where F: FnOnce(&mut [Option<T>], &mut [Option<T>])
        requires
            self.wf(buffer),
        ensures
            size > buffer.capacity - N || size > buffer.free() ==> self.can_serve_exactly(
                buffer,
                size,
                with,
            ),
            size <= 0 || buffer.capacity - N <= 0 || buffer.free() <= 0 ==> self.can_serve(
                buffer,
                size,
                with,
            ),
    {
        math::law_least(size, buffer.capacity - N, buffer.free());
    }

    /// A batch that is sent runs its closure on the slots that it goes to, as they
    /// are: it can be tried with a closure that must not be run on any other ones.
    pub proof fn law_batch_runs_on_its_slots<F>(
        &self,
        buffer: &Buffer<T, N>,
        count: int,
        with: F,
    ) where F: FnOnce(&mut [Option<T>], &mut [Option<T>])
        requires
            self.wf(buffer),
            0 <= count <= buffer.free(),
            forall|s1: &mut [Option<T>], s2: &mut [Option<T>]|
                #![trigger call_requires(with, (s1, s2))]
                s1@.len() + s2@.len() == count && (forall|i: int|
                    0 <= i < count ==> (#[trigger] (s1@ + s2@)[i]) == buffer.slots@[(
                    self.slot_ptr.cl_index * N + self.slot_ptr.cl_offset + i) % (
                    buffer.capacity as int)]) ==> call_requires(with, (s1, s2)),
        ensures
            self.can_fill(buffer, count, with),
    {
        let from = self.slot_ptr.flat(N as int);
        let first = buffer.unwrapped(self.slot_ptr, count);
        buffer.lemma_head_and_tail();
        buffer.lemma_free();
        buffer.lemma_flat_bound(self.slot_ptr);
        assert forall|s1: &mut [Option<T>], s2: &mut [Option<T>]|
            #![trigger call_requires(with, (s1, s2))]
            {
                &&& s1@.len() == first && s2@.len() == count - first
                &&& s1@ == buffer.slots@.subrange(from, from + first)
                &&& s2@ == buffer.slots@.subrange(0, count - first)
            } implies call_requires(with, (s1, s2)) by {
            assert forall|i: int| 0 <= i < count implies (#[trigger] (s1@ + s2@)[i])
                == buffer.slots@[(self.slot_ptr.cl_index * N + self.slot_ptr.cl_offset + i) % (
            buffer.capacity as int)] by {
                math::lemma_wrap_once(from + i, buffer.capacity as int);
            }
        }
    }

    /// Sending some messages and then more of them is sending all of them, down
    /// to every slot.
    pub proof fn law_sends_add_up(
        was: &Self,
        before: &Buffer<T, N>,
        first: Seq<T>,
        midway: &Self,
        middle: &Buffer<T, N>,
        second: Seq<T>,
        tx: &Self,
        after: &Buffer<T, N>,
    )
        requires
            was.wf(before),
            midway.has_sent(middle, was, before, first),
            tx.has_sent(after, midway, middle, second),
        ensures
            tx.has_sent(after, was, before, first + second),
    {
        let n = N as int;
        let items = first + second;
        before.lemma_head_and_tail();
        before.lemma_capacity();
        before.lemma_free();
        after.lemma_free();
        assert(was.slot_ptr == before.write_ptr());
        before.log@.law_send_in_parts(first, second, n);
        if first.len() > 0 {
            before.lemma_advanced_flat(was.slot_ptr, first.len() as int);
        } else {
            before.lemma_send_nothing(first);
            assert(midway.slot_ptr == was.slot_ptr);
        }
        transitions::lemma_written_in_turn(
            before.slots@,
            middle.slots@,
            after.slots@,
            was.slot_ptr.flat(n),
            midway.slot_ptr.flat(n),
            first,
            second,
        );
        if items.len() > 0 {
            before.lemma_write_ptr_advanced(items);
        }
    }

    /// Sending leaves no choice: what it makes of an end and a ring is fixed.
    pub proof fn law_send_is_determined(
        was: &Self,
        before: &Buffer<T, N>,
        items: Seq<T>,
        one: &Self,
        one_ring: &Buffer<T, N>,
        other: &Self,
        other_ring: &Buffer<T, N>,
    )
        requires
            was.wf(before),
            one.has_sent(one_ring, was, before, items),
            other.has_sent(other_ring, was, before, items),
        ensures
            one.slot_ptr == other.slot_ptr,
            one_ring.same_as(other_ring),
    {
        transitions::lemma_written_once(
            before.slots@,
            one_ring.slots@,
            other_ring.slots@,
            was.slot_ptr.flat(N as int),
            items,
        );
    }

    /// `send` leaves what one `try_send` of the same message leaves. The end `sent`
    /// with its ring is what `send` makes of `was` and `before`, and `tried` with
    /// its ring what `try_send` makes of them.
    pub proof fn law_send_is_one_try_send(
        was: &Self,
        before: &Buffer<T, N>,
        value: T,
        sent: &Self,
        sent_ring: &Buffer<T, N>,
        tried: &Self,
        tried_ring: &Buffer<T, N>,
    )
        requires
            was.wf(before),
            before.free() > 0,
            sent.has_sent(sent_ring, was, before, seq![value]),
            sent.cached_cl_read == was.looked_back(before, was.slot_ptr.cl_offset == N),
            before.free() > 0 ==> tried.has_sent(tried_ring, was, before, seq![value]),
            tried.cached_cl_read == was.looked_back(before, was.slot_ptr.cl_offset == N),
        ensures
            sent.slot_ptr == tried.slot_ptr,
            sent.cached_cl_read == tried.cached_cl_read,
            sent_ring.same_as(tried_ring),
            sent_ring.log@.accepted() == before.log@.accepted().push(value),
    {
        Self::law_send_is_determined(
            was,
            before,
            seq![value],
            sent,
            sent_ring,
            tried,
            tried_ring,
        );
        assert(before.log@.accepted() + seq![value] =~= before.log@.accepted().push(value));
    }

    /// Sending with waiting sends the message once, however many attempts were
    /// refused before there was room for it, and however much was received in
    /// between.
    ///
    /// Attempt `i` is that of the end `ends[i]` on `rings[i]`. All attempts before
    /// number `last` are refused: `try_send` then leaves the ring alone and the end
    /// where it stands. Before the next attempt the consumer may receive. Attempt
    /// `last` leaves the end `tx` and `ring`.
    pub proof fn law_waiting_sends_once(
        ends: Seq<Self>,
        rings: Seq<Buffer<T, N>>,
        last: int,
        value: T,
        tx: &Self,
        ring: &Buffer<T, N>,
    )
        requires
            0 <= last < ends.len(),
            ends.len() == rings.len(),
            ends[0].wf(&rings[0]),
            forall|i: int|
                #![trigger ends[i + 1]]
                0 <= i < last ==> {
                    &&& ends[i + 1].wf(&rings[i])
                    &&& ends[i + 1].slot_ptr == ends[i].slot_ptr
                },
            forall|i: int|
                #![trigger rings[i + 1]]
                0 <= i < last ==> rings[i + 1].received_from(&rings[i]),
            forall|i: int, end: Self|
                #![trigger end.wf(&rings[i + 1])]
                0 <= i < last && end.wf(&rings[i]) ==> end.wf(&rings[i + 1]),
            tx.has_sent(ring, &ends[last], &rings[last], seq![value]),
        ensures
            ends[last].wf(&rings[last]),
            ends[last].slot_ptr == ends[0].slot_ptr,
            ring.log@.accepted() == rings[0].log@.accepted().push(value),
            tx.slot_ptr == rings[0].advanced(ends[0].slot_ptr, 1),
            ring.head == tx.slot_ptr.cl_index,
            transitions::written(
                rings[last].slots@,
                ring.slots@,
                ends[0].slot_ptr.flat(N as int),
                seq![value],
                1,
            ),
    {
        Self::lemma_refused(ends, rings, last);
        assert(rings[0].log@.accepted() + seq![value] =~= rings[0].log@.accepted().push(value));
    }

    /// What refused attempts and the consumer leave to the last attempt.
    proof fn lemma_refused(ends: Seq<Self>, rings: Seq<Buffer<T, N>>, last: int)
        requires
            0 <= last < ends.len(),
            ends.len() == rings.len(),
            ends[0].wf(&rings[0]),
            forall|i: int|
                #![trigger ends[i + 1]]
                0 <= i < last ==> {
                    &&& ends[i + 1].wf(&rings[i])
                    &&& ends[i + 1].slot_ptr == ends[i].slot_ptr
                },
            forall|i: int|
                #![trigger rings[i + 1]]
                0 <= i < last ==> rings[i + 1].received_from(&rings[i]),
            forall|i: int, end: Self|
                #![trigger end.wf(&rings[i + 1])]
                0 <= i < last && end.wf(&rings[i]) ==> end.wf(&rings[i + 1]),
        ensures
            ends[last].wf(&rings[last]),
            ends[last].slot_ptr == ends[0].slot_ptr,
            rings[last].cl_mask == rings[0].cl_mask,
            rings[last].log@.accepted() == rings[0].log@.accepted(),
        decreases last,
    {
        if last > 0 {
            let i = last - 1;
            Self::lemma_refused(ends, rings, i);
            assert(ends[i + 1].wf(&rings[i]));
            assert(rings[i + 1].received_from(&rings[i]));
            assert(ends[last].wf(&rings[i + 1]));
        }
    }

    /// One after the other, `try_send` accepts as many messages as there is room
    /// for, and leaves what sending them together leaves. The ends `ends[i]` with
    /// their rings are what the first `i` calls lead to.
    pub proof fn law_sends_one_by_one(
        ends: Seq<Self>,
        rings: Seq<Buffer<T, N>>,
        items: Seq<T>,
        count: int,
    )
        requires
            ends.len() == items.len() + 1,
            rings.len() == items.len() + 1,
            ends[0].wf(&rings[0]),
            items.len() <= rings[0].free(),
            forall|i: int|
                #![trigger ends[i + 1]]
                0 <= i < items.len() && rings[i].free() > 0 ==> ends[i + 1].has_sent(
                    &rings[i + 1],
                    &ends[i],
                    &rings[i],
                    seq![items[i]],
                ),
            0 <= count <= items.len(),
        ensures
            ends[count].has_sent(&rings[count], &ends[0], &rings[0], items.take(count)),
            count < items.len() ==> rings[count].free() > 0,
        decreases count,
    {
        if count == 0 {
            ends[0].lemma_nothing_sent(&ends[0], &rings[0], items.take(0));
        } else {
            let i = count - 1;
            Self::law_sends_one_by_one(ends, rings, items, i);
            assert(ends[i + 1].has_sent(&rings[i + 1], &ends[i], &rings[i], seq![items[i]]));
            Self::law_sends_add_up(
                &ends[0],
                &rings[0],
                items.take(i),
                &ends[i],
                &rings[i],
                seq![items[i]],
                &ends[count],
                &rings[count],
            );
            assert(items.take(i) + seq![items[i]] =~= items.take(count));
        }
    }

    /// A batch leaves what sending its messages one by one leaves, down to every
    /// slot, and each of those sends is accepted.
    pub proof fn law_batch_is_its_sends(
        ends: Seq<Self>,
        rings: Seq<Buffer<T, N>>,
        items: Seq<T>,
        tx: &Self,
        ring: &Buffer<T, N>,
    )
        requires
            ends.len() == items.len() + 1,
            rings.len() == items.len() + 1,
            ends[0].wf(&rings[0]),
            items.len() <= rings[0].free(),
            forall|i: int|
                #![trigger ends[i + 1]]
                0 <= i < items.len() && rings[i].free() > 0 ==> ends[i + 1].has_sent(
                    &rings[i + 1],
                    &ends[i],
                    &rings[i],
                    seq![items[i]],
                ),
            tx.has_sent(ring, &ends[0], &rings[0], items),
        ensures
            tx.wf(ring),
            ring.free() == rings[0].free() - items.len(),
            forall|i: int| 0 <= i < items.len() ==> (#[trigger] rings[i]).free() > 0,
            tx.slot_ptr == ends[items.len() as int].slot_ptr,
            ring.head == rings[items.len() as int].head,
            ring.tail == rings[items.len() as int].tail,
            ring.slots@ == rings[items.len() as int].slots@,
            ring.interruptions@ == rings[items.len() as int].interruptions@,
            ring.log@ == rings[items.len() as int].log@,
            ring.same_as(&rings[items.len() as int]),
    {
        let n = items.len() as int;
        assert forall|i: int| 0 <= i < n implies (#[trigger] rings[i]).free() > 0 by {
            Self::law_sends_one_by_one(ends, rings, items, i);
        }
        Self::law_sends_one_by_one(ends, rings, items, n);
        assert(items.take(n) =~= items);
        Self::law_send_is_determined(
            &ends[0],
            &rings[0],
            items,
            tx,
            ring,
            &ends[n],
            &rings[n],
        );
    }
}

} // verus!
