//! The receiving end.

use crate::buffer::Buffer;
use crate::buffer::Progress;
use crate::math;
use crate::producer::Producer;
use crate::reading;
use crate::slot_ptr::SlotPtr;
use crate::spinlock::Spinlock;
use core::marker::PhantomData;
use vstd::prelude::*;

verus! {

/// Why nothing was received.
#[derive(Debug, PartialEq, Eq, Structural)]
pub enum Error {
    QueueEmpty,
    BatchTooLarge,
}

/// The receiving end of a queue.
pub struct Consumer<T, const N: usize> {
    pub slot_ptr: SlotPtr,
    pub cached_cl_write: SlotPtr,
    pub marker: PhantomData<T>,
}

impl<T, const N: usize> Consumer<T, N> {
    /// Whether this is the receiving end of `buffer`: it stands where the
    /// delivered messages end, and what it believes to be readable is readable.
    pub open spec fn wf(&self, buffer: &Buffer<T, N>) -> bool {
        &&& buffer.wf()
        &&& self.slot_ptr.cl_index == buffer.progress@.read_line % buffer.lines()
        &&& self.slot_ptr.cl_offset == buffer.progress@.read_offset
        &&& self.cached_cl_write == buffer.end_of(buffer.progress@.seen - 1)
    }

    /// What this end and `buffer` know of released lines, if they come from the
    /// end `was` and from `before`: the next bound is taken up if `looked`, and
    /// nothing changes otherwise.
    pub open spec fn has_looked(
        &self,
        buffer: &Buffer<T, N>,
        was: &Self,
        before: &Buffer<T, N>,
        looked: bool,
    ) -> bool {
        if looked {
            &&& self.cached_cl_write == before.next_bound()
            &&& buffer.interruptions@ == before.next_interruptions()
        } else {
            &&& self.cached_cl_write == was.cached_cl_write
            &&& buffer.interruptions@ == before.interruptions@
        }
    }

    /// Whether the line that the consumer knows to be readable last is not the
    /// last one that was released.
    pub open spec fn more_released(&self, buffer: &Buffer<T, N>) -> bool {
        self.cached_cl_write.cl_index != (buffer.head - 1) % buffer.lines()
    }

    /// Whether a batch looks for more: not while there is something to read
    /// before the end of a part-filled line.
    pub open spec fn looks_further(&self, buffer: &Buffer<T, N>) -> bool {
        &&& self.more_released(buffer)
        &&& self.cached_cl_write.cl_offset == N || self.slot_ptr == self.cached_cl_write
    }

    /// Whether this end and `buffer` are what receiving one message makes of the
    /// end `was` and of `before`.
    pub open spec fn has_received_one(
        &self,
        buffer: &Buffer<T, N>,
        was: &Self,
        before: &Buffer<T, N>,
    ) -> bool {
        &&& self.wf(buffer)
        &&& buffer.log@ == before.log@.recv(1)
        &&& buffer.received_from(before)
        &&& before.free() <= buffer.free()
        &&& if was.slot_ptr.cl_offset == N || was.slot_ptr == was.cached_cl_write {
            &&& self.slot_ptr.cl_index == (was.slot_ptr.cl_index + 1) % before.lines()
            &&& self.slot_ptr.cl_offset == 1
            &&& buffer.tail == self.slot_ptr.cl_index
        } else {
            &&& self.slot_ptr.cl_index == was.slot_ptr.cl_index
            &&& self.slot_ptr.cl_offset == was.slot_ptr.cl_offset + 1
            &&& buffer.tail == before.tail
        }
        &&& buffer.reads_on()
        &&& buffer.slots@ == before.slots@.update(self.slot_ptr.flat(N as int) - 1, None)
        &&& self.has_looked(buffer, was, before, was.slot_ptr == was.cached_cl_write)
    }

    /// Whether this end and `buffer` are what receiving a batch of `count`
    /// messages makes of the end `was` and of `before`. The messages are copied,
    /// so the slots stay as they are.
    pub open spec fn has_received(
        &self,
        buffer: &Buffer<T, N>,
        was: &Self,
        before: &Buffer<T, N>,
        count: int,
    ) -> bool {
        &&& self.wf(buffer)
        &&& buffer.log@ == before.log@.recv(count)
        &&& buffer.received_from(before)
        &&& before.free() <= buffer.free()
        &&& self.slot_ptr == before.advanced(before.resume_ptr(), count)
        &&& buffer.tail == self.slot_ptr.cl_index
        &&& count > 0 ==> buffer.reads_on()
        &&& buffer.slots == before.slots
        &&& self.has_looked(buffer, was, before, was.looks_further(before))
    }

    pub(crate) fn new(buffer: &Buffer<T, N>) -> (consumer: Self)
        ensures
            consumer.slot_ptr == (SlotPtr { cl_index: buffer.cl_mask, cl_offset: N }),
            consumer.cached_cl_write == (SlotPtr { cl_index: buffer.cl_mask, cl_offset: N }),
    {
        let curr_ptr = SlotPtr::from((buffer.cl_mask, N));
        Consumer { slot_ptr: curr_ptr, cached_cl_write: curr_ptr, marker: PhantomData }
    }

    /// Receives the oldest message that is visible. Waits as long as there is
    /// none, so there has to be one: nobody else can send to `buffer` in the
    /// meantime.
    pub fn recv(&mut self, buffer: &mut Buffer<T, N>) -> (value: T)
        requires
            old(self).wf(old(buffer)),
            old(buffer).published().len() > 0,
        ensures
            value == old(buffer).published()[0],
            final(self).has_received_one(final(buffer), old(self), old(buffer)),
            forall|tx: Producer<T, N>| tx.wf(old(buffer)) ==> tx.wf(final(buffer)),
    {
        let mut spinlock = Spinlock::new();
        loop
            invariant
                old(self).wf(old(buffer)),
                old(buffer).published().len() > 0,
                *self == *old(self),
                *buffer == *old(buffer),
            decreases 0nat,
        {
            match self.try_recv(buffer) {
                Ok(value) => return value,
                Err(_) => {
                    spinlock.spin_heavy();
                },
            }
        }
    }

    /// Receives the oldest message that is visible.
    pub fn try_recv(&mut self, buffer: &mut Buffer<T, N>) -> (outcome: Result<T, Error>)
        requires
            old(self).wf(old(buffer)),
        ensures
            final(self).wf(final(buffer)),
            forall|tx: Producer<T, N>| tx.wf(old(buffer)) ==> tx.wf(final(buffer)),
            old(buffer).published().len() == 0 ==> {
                &&& outcome == Err::<T, Error>(Error::QueueEmpty)
                &&& *final(buffer) == *old(buffer)
                &&& *final(self) == *old(self)
            },
            old(buffer).published().len() > 0 ==> {
                &&& outcome == Ok::<T, Error>(old(buffer).published()[0])
                &&& final(self).has_received_one(final(buffer), old(self), old(buffer))
            },
    {
        let ghost before = *buffer;
        let ghost line = before.progress@.read_line;
        let curr_cl_index = self.slot_ptr.cl_index;
        let curr_cl_offset = self.slot_ptr.cl_offset;
        proof {
            self.lemma_positions(buffer);
            before.lemma_reach();
            before.lemma_line_mask((curr_cl_index + 1) as usize);
            math::lemma_mod_shift(line, 1, before.lines());
        }
        // slow path: look for more, jump past a gap
        if self.slot_ptr == self.cached_cl_write {
            proof {
                before.lemma_nothing_left();
            }
            let next_cl_index: usize = (curr_cl_index + 1) & buffer.cl_mask;
            let curr_head = buffer.head;
            if next_cl_index == curr_head {
                return Err(Error::QueueEmpty);
            }
            self.take_up(buffer, curr_head);
            let value = self.recv_from_next_line(
                buffer,
                next_cl_index,
                Ghost(before),
            );
            Ok(value)
        }
        // fast path: on to the next line inside of what is known
         else if curr_cl_offset == N {
            let next_cl_index: usize = (curr_cl_index + 1) & buffer.cl_mask;
            let value = self.recv_from_next_line(
                buffer,
                next_cl_index,
                Ghost(before),
            );
            Ok(value)
        }
        // fast path: within the line
         else {
            proof {
                before.lemma_slot_bound(curr_cl_index, curr_cl_offset);
                buffer.log@ = before.log@.recv(1);
                buffer.progress@ = Progress {
                    read_offset: before.progress@.read_offset + 1,
                    ..before.progress@
                };
            }
            let taken = buffer.slots[curr_cl_index * N + curr_cl_offset].take();
            self.slot_ptr.cl_offset = curr_cl_offset + 1;
            proof {
                Buffer::lemma_recv_in_line(&before, buffer);
                Buffer::lemma_room_kept(&before, buffer);
            }
            Ok(taken.unwrap())
        }
    }

    /// Learns what was released up to line `curr_head`: up to the end of the
    /// first part-filled line, or all of it.
    fn take_up(&mut self, buffer: &mut Buffer<T, N>, curr_head: usize)
        requires
            old(buffer).wf(),
            curr_head == old(buffer).head,
            old(buffer).progress@.seen < old(buffer).log@.write_line(),
        ensures
            final(self).slot_ptr == old(self).slot_ptr,
            final(self).has_looked(final(buffer), old(self), old(buffer), true),
            final(self).cached_cl_write == final(buffer).end_of(final(buffer).progress@.seen - 1),
            *final(buffer) == (Buffer {
                interruptions: final(buffer).interruptions,
                progress: final(buffer).progress,
                ..*old(buffer)
            }),
            final(buffer).progress@ == (Progress {
                seen: final(buffer).progress@.seen,
                breaks: final(buffer).progress@.breaks,
                ..old(buffer).progress@
            }),
            old(buffer).progress@.seen < final(buffer).progress@.seen <= old(
                buffer,
            ).log@.write_line(),
            forall|l: int|
                old(buffer).progress@.seen <= l < final(buffer).progress@.seen - 1 ==> #[trigger] old(
                    buffer,
                ).log@.fill(l) == N,
            final(buffer).extended(),
            final(buffer).breaks_wf(),
    {
        let ghost before = *buffer;
        let ghost w = before.log@.write_line();
        let ghost seen = before.progress@.seen;
        let ghost breaks = before.progress@.breaks;
        proof {
            before.lemma_head_and_tail();
            before.lemma_line_mask(curr_head);
            math::lemma_mod_shift(w, -1, before.lines());
        }
        match buffer.interruptions.pop_next() {
            Some(interruption) => {
                self.cached_cl_write = interruption;
                proof {
                    buffer.progress@ = Progress {
                        seen: breaks[0] + 1,
                        breaks: breaks.skip(1),
                        ..before.progress@
                    };
                    Buffer::lemma_break_taken(&before, buffer);
                }
            },
            None => {
                let prev_head: usize = curr_head.wrapping_sub(1) & buffer.cl_mask;
                self.cached_cl_write = SlotPtr::from((prev_head, N));
                proof {
                    buffer.progress@ = Progress { seen: w, ..before.progress@ };
                    before.lemma_no_break();
                    assert(before.log@.fill(w - 1) == N);
                }
            },
        }
    }

    /// Receives as many messages as `buf` has room for, but at most one run.
    pub fn try_recv_batch(&mut self, buffer: &mut Buffer<T, N>, buf: &mut [T]) -> (outcome: Result<
        usize,
        Error,
    >) where T: Copy
        requires
            old(self).wf(old(buffer)),
        ensures
            final(self).wf(final(buffer)),
            forall|tx: Producer<T, N>| tx.wf(old(buffer)) ==> tx.wf(final(buffer)),
            ({
                let size = math::least(
                    old(buf)@.len() as int,
                    old(buffer).capacity - N,
                    old(buffer).run(),
                );
                if size == 0 {
                    &&& outcome == Err::<usize, Error>(Error::QueueEmpty)
                    &&& *final(buffer) == *old(buffer)
                    &&& *final(self) == *old(self)
                    &&& final(buf)@ == old(buf)@
                } else {
                    &&& outcome == Ok::<usize, Error>(size as usize)
                    &&& final(buf)@ == old(buffer).published().take(size) + old(buf)@.skip(size)
                    &&& final(self).has_received(final(buffer), old(self), old(buffer), size)
                }
            }),
    {
        proof {
            buffer.lemma_capacity();
            buffer.log@.law_run(N as int);
        }
        let max_batch_size = buffer.max_size();
        let size: usize = buf.len().min(max_batch_size);
        if size == 0 {
            return Err(Error::QueueEmpty);
        }
        let final_batch_size: usize = size.min(self.continuous_used(buffer));
        if final_batch_size == 0 {
            return Err(Error::QueueEmpty);
        }
        self.recv_batch_exact_unchecked(buffer, buf, final_batch_size);
        Ok(final_batch_size)
    }

    /// Receives as many messages as `buf` has room for, if one run has as many,
    /// or nothing.
    ///
    /// Even if nothing is received, the consumer goes on to the next line if it
    /// has read a part-filled line to its end.
    pub fn try_recv_batch_exact(&mut self, buffer: &mut Buffer<T, N>, buf: &mut [T]) -> (outcome:
        Result<usize, Error>) where T: Copy
        requires
            old(self).wf(old(buffer)),
        ensures
            final(self).wf(final(buffer)),
            forall|tx: Producer<T, N>| tx.wf(old(buffer)) ==> tx.wf(final(buffer)),
            old(buf)@.len() > old(buffer).capacity - N ==> {
                &&& outcome == Err::<usize, Error>(Error::BatchTooLarge)
                &&& *final(buffer) == *old(buffer)
                &&& *final(self) == *old(self)
                &&& final(buf)@ == old(buf)@
            },
            old(buffer).run() < old(buf)@.len() <= old(buffer).capacity - N ==> {
                &&& outcome == Err::<usize, Error>(Error::QueueEmpty)
                &&& final(self).slot_ptr == old(buffer).resume_ptr()
                &&& *final(buffer) == (Buffer {
                    interruptions: final(buffer).interruptions,
                    progress: final(buffer).progress,
                    ..*old(buffer)
                })
                &&& final(self).has_looked(
                    final(buffer),
                    old(self),
                    old(buffer),
                    old(self).looks_further(old(buffer)),
                )
                &&& final(buf)@ == old(buf)@
            },
            old(buf)@.len() <= old(buffer).capacity - N && old(buf)@.len() <= old(buffer).run()
                ==> {
                &&& outcome == Ok::<usize, Error>(old(buf)@.len() as usize)
                &&& final(buf)@ == old(buffer).published().take(old(buf)@.len() as int)
                &&& final(self).has_received(
                    final(buffer),
                    old(self),
                    old(buffer),
                    old(buf)@.len() as int,
                )
            },
    {
        let size = buf.len();
        proof {
            buffer.lemma_capacity();
            buffer.log@.law_run(N as int);
        }
        if size > buffer.max_size() {
            return Err(Error::BatchTooLarge);
        }
        if size > self.continuous_used(buffer) {
            return Err(Error::QueueEmpty);
        }
        self.recv_batch_exact_unchecked(buffer, buf, size);
        assert(buf@ =~= old(buffer).published().take(size as int));
        Ok(size)
    }

    /// Receives `batch_size` messages, which the consumer must know to be
    /// readable, into the start of `buf`.
    fn recv_batch_exact_unchecked(
        &mut self,
        buffer: &mut Buffer<T, N>,
        buf: &mut [T],
        batch_size: usize,
    ) where T: Copy
        requires
            old(self).wf(old(buffer)),
            batch_size <= old(buffer).reach(),
            batch_size <= old(buf)@.len(),
        ensures
            final(self).wf(final(buffer)),
            batch_size <= old(buffer).published().len(),
            final(buf)@ == old(buffer).published().take(batch_size as int) + old(buf)@.skip(
                batch_size as int,
            ),
            final(buffer).log@ == old(buffer).log@.recv(batch_size as int),
            final(buffer).received_from(old(buffer)),
            old(buffer).free() <= final(buffer).free(),
            final(self).slot_ptr == old(buffer).advanced(
                old(self).slot_ptr,
                batch_size as int,
            ),
            final(self).cached_cl_write == old(self).cached_cl_write,
            final(buffer).tail == final(self).slot_ptr.cl_index,
            final(buffer).slots == old(buffer).slots,
            final(buffer).interruptions == old(buffer).interruptions,
            old(buffer).progress@.tail_line <= final(buffer).progress@.tail_line,
            batch_size > 0 ==> final(buffer).reads_on(),
    {
        let ghost before = *buffer;
        proof {
            self.lemma_positions(buffer);
            before.lemma_reach();
            before.lemma_flat_bound(self.slot_ptr);
            math::lemma_twice_fits(before.capacity);
            if batch_size > 0 {
                before.lemma_readable(batch_size - 1);
            }
        }
        let from_abs_index: usize = self.slot_ptr.cl_index * N + self.slot_ptr.cl_offset;
        let capacity = buffer.capacity;
        let ghost read = before.log@.read;
        let mut i: usize = 0;
        while i < batch_size
            invariant
                i <= batch_size <= old(buf)@.len(),
                buf@.len() == old(buf)@.len(),
                from_abs_index <= capacity,
                from_abs_index + batch_size <= usize::MAX,
                batch_size <= before.reach() < capacity,
                before.wf(),
                *buffer == before,
                capacity == before.capacity,
                from_abs_index == before.read_ptr().flat(N as int),
                read == before.log@.read,
                forall|j: int| 0 <= j < i ==> buf@[j] == before.log@.messages[read + j],
                forall|j: int| i <= j < buf@.len() ==> buf@[j] == old(buf)@[j],
            decreases batch_size - i,
        {
            let position: usize = from_abs_index + i;
            let index: usize = if position < capacity {
                position
            } else {
                position - capacity
            };
            proof {
                math::lemma_wrap_once(position as int, capacity as int);
                before.lemma_readable(i as int);
            }
            buf[i] = buffer.slots[index].unwrap();
            i = i + 1;
        }
        self.advance(buffer, batch_size);
        assert(buf@ =~= before.published().take(batch_size as int) + old(buf)@.skip(
            batch_size as int,
        ));
    }

    /// Moves on past `count` messages, which the consumer must know to be
    /// readable.
    pub(crate) fn advance(&mut self, buffer: &mut Buffer<T, N>, count: usize)
        requires
            old(self).wf(old(buffer)),
            count <= old(buffer).reach(),
        ensures
            final(self).wf(final(buffer)),
            final(buffer).log@ == old(buffer).log@.recv(count as int),
            final(buffer).received_from(old(buffer)),
            old(buffer).free() <= final(buffer).free(),
            final(self).slot_ptr == old(buffer).advanced(old(self).slot_ptr, count as int),
            final(self).cached_cl_write == old(self).cached_cl_write,
            final(buffer).tail == final(self).slot_ptr.cl_index,
            final(buffer).slots == old(buffer).slots,
            final(buffer).interruptions == old(buffer).interruptions,
            old(buffer).progress@.tail_line <= final(buffer).progress@.tail_line,
            count > 0 ==> final(buffer).reads_on(),
    {
        let ghost before = *buffer;
        proof {
            self.lemma_positions(buffer);
            before.lemma_reach();
            before.lemma_flat_bound(self.slot_ptr);
            math::lemma_twice_fits(before.capacity);
            before.lemma_read_ptr_advanced(count as int);
        }
        buffer.advance_slot_ptr(&mut self.slot_ptr, count);
        buffer.tail = self.slot_ptr.cl_index;
        proof {
            let (line, offset) = reading::moved_on(
                before.progress@.read_line,
                before.progress@.read_offset,
                count as int,
                before.lines(),
                N as int,
            );
            buffer.log@ = before.log@.recv(count as int);
            buffer.progress@ = Progress {
                tail_line: line,
                read_line: line,
                read_offset: offset,
                ..before.progress@
            };
            Buffer::lemma_recv_batch(&before, buffer, count as int);
            Buffer::lemma_room_kept(&before, buffer);
        }
    }

    /// How many messages one batch can take. Goes on to the next line if the
    /// consumer has read a part-filled line to its end.
    pub(crate) fn continuous_used(&mut self, buffer: &mut Buffer<T, N>) -> (used: usize)
        requires
            old(self).wf(old(buffer)),
        ensures
            final(self).wf(final(buffer)),
            used == old(buffer).run(),
            used == final(buffer).reach(),
            final(self).slot_ptr == old(buffer).resume_ptr(),
            final(self).has_looked(
                final(buffer),
                old(self),
                old(buffer),
                old(self).looks_further(old(buffer)),
            ),
            *final(buffer) == (Buffer {
                interruptions: final(buffer).interruptions,
                progress: final(buffer).progress,
                ..*old(buffer)
            }),
            final(buffer).progress@.tail_line == old(buffer).progress@.tail_line,
            used == 0 ==> {
                &&& *final(buffer) == *old(buffer)
                &&& *final(self) == *old(self)
            },
    {
        let ghost before = *buffer;
        proof {
            before.log@.law_run(N as int);
            if before.published().len() == 0 {
                before.lemma_all_seen();
            }
        }
        self.try_extend_cached_cl_write(buffer);
        let ghost middle = *buffer;
        proof {
            self.lemma_positions(buffer);
            self.lemma_flat_reach(buffer);
        }
        let used = buffer.flat_dist(self.slot_ptr, self.cached_cl_write);
        if used != 0 {
            proof {
                buffer.lemma_reach_is_run();
                before.lemma_not_at_break();
            }
            return used;
        }
        let curr_cl_index = self.slot_ptr.cl_index;
        let ghost line = middle.progress@.read_line;
        proof {
            buffer.lemma_nothing_left();
            buffer.lemma_reach();
            buffer.lemma_line_mask((curr_cl_index + 1) as usize);
            math::lemma_mod_shift(line, 1, buffer.lines());
            assert(middle == before);
            before.lemma_head_and_tail();
            math::lemma_mod_shift(before.log@.write_line(), -1, before.lines());
            math::lemma_mod_shift(before.head - 1, 1, before.lines());
            vstd::arithmetic::div_mod::lemma_small_mod(before.head as nat, before.lines() as nat);
        }
        let next_cl_index: usize = (curr_cl_index + 1) & buffer.cl_mask;
        let curr_head = buffer.head;
        if next_cl_index == curr_head {
            return 0;
        }
        self.take_up(buffer, curr_head);
        self.slot_ptr.set(next_cl_index, 0);
        proof {
            buffer.progress@ = Progress {
                read_line: line + 1,
                read_offset: 0,
                ..buffer.progress@
            };
            Buffer::lemma_jump(&middle, buffer);
            self.lemma_positions(buffer);
            self.lemma_flat_reach(buffer);
            buffer.lemma_reach();
            buffer.lemma_reach_is_run();
        }
        buffer.flat_dist(self.slot_ptr, self.cached_cl_write)
    }

    /// Looks for more to read, unless that would go past a part-filled line.
    fn try_extend_cached_cl_write(&mut self, buffer: &mut Buffer<T, N>)
        requires
            old(self).wf(old(buffer)),
        ensures
            final(self).wf(final(buffer)),
            final(buffer).extended(),
            final(self).slot_ptr == old(self).slot_ptr,
            *final(buffer) == (Buffer {
                interruptions: final(buffer).interruptions,
                progress: final(buffer).progress,
                ..*old(buffer)
            }),
            final(buffer).progress@ == (Progress {
                seen: final(buffer).progress@.seen,
                breaks: final(buffer).progress@.breaks,
                ..old(buffer).progress@
            }),
            if old(self).cached_cl_write.cl_offset == N && old(self).more_released(old(buffer)) {
                &&& final(self).has_looked(final(buffer), old(self), old(buffer), true)
                &&& old(buffer).progress@.seen < final(buffer).progress@.seen
            } else {
                &&& *final(buffer) == *old(buffer)
                &&& *final(self) == *old(self)
            },
    {
        let ghost before = *buffer;
        let ghost n = N as int;
        let ghost c = before.lines();
        let ghost w = before.log@.write_line();
        let ghost last = before.progress@.seen - 1;
        proof {
            self.lemma_positions(buffer);
            before.lemma_reach();
        }
        if self.cached_cl_write.cl_offset != N {
            return;
        }
        let curr_head = buffer.head;
        proof {
            before.lemma_head_and_tail();
            before.lemma_line_mask(curr_head);
            math::lemma_mod_shift(w, -1, c);
        }
        let new_bound = SlotPtr::from((curr_head.wrapping_sub(1) & buffer.cl_mask, N));
        proof {
            before.lemma_flat_bound(self.cached_cl_write);
            before.lemma_flat_bound(new_bound);
            assert(0 <= (w - 1 - last) * n < c * n) by (nonlinear_arith)
                requires
                    0 <= w - 1 - last < c,
                    0 < n,
            ;
            before.lemma_distance(last, n, w - 1, n);
        }
        let extension = buffer.flat_dist(self.cached_cl_write, new_bound);
        proof {
            assert((w - 1 - last) * n == 0 <==> w - 1 == last) by (nonlinear_arith)
                requires
                    0 < n,
            ;
        }
        proof {
            if last % c == (w - 1) % c {
                math::lemma_same_remainder(w - 1, last, c);
            }
        }
        if extension == 0 {
            return;
        }
        match buffer.interruptions.peek_next() {
            Some(interruption) => {
                proof {
                    let first = before.progress@.breaks[0];
                    let f = before.log@.fill(first);
                    assert(before.interruptions@[0] == before.end_of(first));
                    assert(1 <= f < n);
                    before.lemma_flat_bound(interruption);
                    assert(0 < (first - last) * n + f - n <= (w - 1 - last) * n)
                        by (nonlinear_arith)
                        requires
                            last < first < w,
                            0 < f < n,
                    ;
                    before.lemma_distance(last, n, first, f);
                }
                let dist_to_intr = buffer.flat_dist(self.cached_cl_write, interruption);
                if dist_to_intr > 0 && dist_to_intr <= extension {
                    self.take_up(buffer, curr_head);
                    proof {
                        Buffer::lemma_extended(&before, buffer);
                    }
                    return;
                }
                // the first part-filled line is always among what was released
                assert(false);
            },
            None => {},
        }
        self.cached_cl_write = new_bound;
        proof {
            before.lemma_no_break();
            buffer.progress@ = Progress { seen: w, ..before.progress@ };
            assert(before.log@.fill(w - 1) == N);
            Buffer::lemma_extended(&before, buffer);
        }
    }

    /// The distance between the consumer's pointers is what it knows to be
    /// readable.
    proof fn lemma_flat_reach(&self, buffer: &Buffer<T, N>)
        requires
            self.wf(buffer),
        ensures
            math::ring_distance(
                self.slot_ptr.flat(N as int),
                self.cached_cl_write.flat(N as int),
                buffer.capacity as int,
            ) == buffer.reach(),
            self.slot_ptr.flat(N as int) <= buffer.capacity,
            self.cached_cl_write.flat(N as int) <= buffer.capacity,
    {
        let last = buffer.progress@.seen - 1;
        self.lemma_positions(buffer);
        buffer.lemma_reach();
        buffer.lemma_flat_bound(self.slot_ptr);
        buffer.lemma_flat_bound(self.cached_cl_write);
        buffer.lemma_distance(
            buffer.progress@.read_line,
            buffer.progress@.read_offset,
            last,
            buffer.fill_of(last),
        );
    }

    /// Receives the first message of the next line.
    fn recv_from_next_line(
        &mut self,
        buffer: &mut Buffer<T, N>,
        next_cl_index: usize,
        Ghost(before): Ghost<Buffer<T, N>>,
    ) -> (value: T)
        requires
            before.wf(),
            *old(buffer) == (Buffer {
                interruptions: old(buffer).interruptions,
                progress: old(buffer).progress,
                ..before
            }),
            old(buffer).progress@ == (Progress {
                seen: old(buffer).progress@.seen,
                breaks: old(buffer).progress@.breaks,
                ..before.progress@
            }),
            next_cl_index == (before.progress@.read_line + 1) % before.lines(),
            before.log@.read == before.log@.starts[before.progress@.read_line + 1],
            before.progress@.read_line + 1 < old(buffer).progress@.seen
                <= before.log@.write_line(),
            forall|l: int|
                before.progress@.read_line < l < old(buffer).progress@.seen - 1
                    ==> #[trigger] before.log@.fill(l) == N,
            old(buffer).breaks_wf(),
            old(self).cached_cl_write == old(buffer).end_of(old(buffer).progress@.seen - 1),
        ensures
            final(self).wf(final(buffer)),
            final(self).slot_ptr == (SlotPtr { cl_index: next_cl_index, cl_offset: 1 }),
            final(self).cached_cl_write == old(self).cached_cl_write,
            final(buffer).tail == next_cl_index,
            final(buffer).slots@ == before.slots@.update(next_cl_index * N as int, None),
            final(buffer).interruptions == old(buffer).interruptions,
            before.published().len() > 0,
            value == before.published()[0],
            final(buffer).log@ == before.log@.recv(1),
            final(buffer).received_from(&before),
            before.free() <= final(buffer).free(),
            before.progress@.tail_line <= final(buffer).progress@.tail_line,
            final(buffer).reads_on(),
    {
        let ghost middle = *buffer;
        let ghost line = before.progress@.read_line + 1;
        proof {
            before.lemma_slot_bound(next_cl_index, 0);
            buffer.log@ = before.log@.recv(1);
            buffer.progress@ = Progress {
                tail_line: line,
                read_line: line,
                read_offset: 1,
                ..middle.progress@
            };
        }
        let taken = buffer.slots[next_cl_index * N].take();
        self.slot_ptr.set(next_cl_index, 1);
        buffer.tail = next_cl_index;
        proof {
            Buffer::lemma_breaks_kept(&middle, buffer);
            Buffer::lemma_recv_next_line(&before, buffer);
            Buffer::lemma_room_kept(&before, buffer);
            assert(buffer.end_of(buffer.progress@.seen - 1) == middle.end_of(
                middle.progress@.seen - 1,
            ));
        }
        taken.unwrap()
    }

    /// What the consumer's pointers say about the ring.
    proof fn lemma_positions(&self, buffer: &Buffer<T, N>)
        requires
            self.wf(buffer),
        ensures
            self.slot_ptr.cl_index <= buffer.cl_mask,
            self.slot_ptr.cl_offset <= N,
            buffer.lines() <= usize::MAX,
            self.slot_ptr == buffer.read_ptr(),
            self.slot_ptr == self.cached_cl_write <==> buffer.reach() == 0,
            self.slot_ptr != self.cached_cl_write && self.slot_ptr.cl_offset == N ==> {
                &&& buffer.progress@.read_line + 1 < buffer.progress@.seen
                &&& buffer.log@.read == buffer.log@.starts[buffer.progress@.read_line + 1]
            },
    {
        let line = buffer.progress@.read_line;
        let last = buffer.progress@.seen - 1;
        buffer.lemma_reach();
        buffer.lemma_head_and_tail();
        if self.slot_ptr == self.cached_cl_write {
            math::lemma_same_remainder(last, line, buffer.lines());
        }
    }

    /// `recv` leaves what one `try_recv` leaves, and takes one message. The end
    /// `received` with its ring is what `recv` makes of `was` and `before`, and
    /// `tried` with its ring what `try_recv` makes of them.
    pub proof fn law_recv_is_one_try_recv(
        was: &Self,
        before: &Buffer<T, N>,
        received: &Self,
        received_ring: &Buffer<T, N>,
        tried: &Self,
        tried_ring: &Buffer<T, N>,
    )
        requires
            was.wf(before),
            before.published().len() > 0,
            received.has_received_one(received_ring, was, before),
            before.published().len() > 0 ==> tried.has_received_one(tried_ring, was, before),
        ensures
            received.slot_ptr == tried.slot_ptr,
            received.cached_cl_write == tried.cached_cl_write,
            received_ring.same_as(tried_ring),
            received_ring.published() == before.published().skip(1),
            received_ring.pending() == before.pending(),
    {
        before.log@.law_recv(1, N as int);
    }

    /// A consumer that has received stands in the line of the message that was
    /// delivered last, right behind it, and if `tail` tells that line, all lines
    /// before it are free again.
    pub proof fn law_stands_behind(&self, buffer: &Buffer<T, N>)
        requires
            self.wf(buffer),
            buffer.reads_on(),
        ensures
            exists|l: int|
                #![trigger buffer.log@.starts[l]]
                {
                    &&& 0 <= l < buffer.log@.starts.len() - 1
                    &&& buffer.log@.starts[l] < buffer.log@.read <= buffer.log@.starts[l + 1]
                    &&& self.slot_ptr.cl_index == l % (buffer.cl_mask + 1)
                    &&& self.slot_ptr.cl_offset == buffer.log@.read - buffer.log@.starts[l]
                    &&& buffer.tail == self.slot_ptr.cl_index && buffer.cl_mask > 0
                        ==> buffer.free() + buffer.pending().len() + (buffer.log@.starts.len() - 1
                        - l) * N == buffer.capacity
                },
    {
        let l = buffer.progress@.read_line;
        let t = buffer.progress@.tail_line;
        buffer.law_room();
        buffer.log@.law_lines_cut_messages(N as int);
        assert(buffer.log@.fill(l) == buffer.log@.starts[l + 1] - buffer.log@.starts[l]);
        if buffer.tail == self.slot_ptr.cl_index && buffer.cl_mask > 0 {
            math::lemma_same_remainder(l, t, buffer.lines());
        }
    }

    /// Receiving one message delivers it and nothing else. The consumer stands
    /// right behind it afterwards, and has emptied its slot. If it has gone on to
    /// another line for it, `tail` follows, and all lines before are free again.
    pub proof fn law_receives_one(
        was: &Self,
        before: &Buffer<T, N>,
        rx: &Self,
        after: &Buffer<T, N>,
    )
        requires
            was.wf(before),
            rx.has_received_one(after, was, before),
        ensures
            rx.wf(after),
            rx.has_looked(after, was, before, was.slot_ptr == was.cached_cl_write),
            after.log@.messages == before.log@.messages,
            after.log@.starts == before.log@.starts,
            after.log@.read == before.log@.read + 1,
            exists|l: int|
                #![trigger after.log@.starts[l]]
                {
                    &&& 0 <= l < after.log@.starts.len() - 1
                    &&& after.log@.starts[l] < after.log@.read <= after.log@.starts[l + 1]
                    &&& rx.slot_ptr.cl_index == l % (after.cl_mask + 1)
                    &&& rx.slot_ptr.cl_offset == after.log@.read - after.log@.starts[l]
                    &&& after.tail == rx.slot_ptr.cl_index && after.cl_mask > 0 ==> after.free()
                        + after.pending().len() + (after.log@.starts.len() - 1 - l) * N
                        == after.capacity
                },
            after.tail == if was.slot_ptr.cl_offset == N || was.slot_ptr == was.cached_cl_write {
                rx.slot_ptr.cl_index
            } else {
                before.tail
            },
            after.slots@ == before.slots@.update(
                rx.slot_ptr.cl_index * N + rx.slot_ptr.cl_offset - 1,
                None,
            ),
            after.head == before.head,
            after.cl_mask == before.cl_mask,
            after.capacity == before.capacity,
    {
        rx.law_stands_behind(after);
    }

    /// Receiving a batch delivers that many messages and nothing else. The consumer
    /// stands right behind the last one, `tail` tells the line of it, and all lines
    /// before are free again.
    pub proof fn law_receives_batch(
        was: &Self,
        before: &Buffer<T, N>,
        rx: &Self,
        after: &Buffer<T, N>,
        count: int,
    )
        requires
            was.wf(before),
            count > 0,
            rx.has_received(after, was, before, count),
        ensures
            rx.wf(after),
            rx.has_looked(after, was, before, was.looks_further(before)),
            after.log@.messages == before.log@.messages,
            after.log@.starts == before.log@.starts,
            after.log@.read == before.log@.read + count,
            exists|l: int|
                #![trigger after.log@.starts[l]]
                {
                    &&& 0 <= l < after.log@.starts.len() - 1
                    &&& after.log@.starts[l] < after.log@.read <= after.log@.starts[l + 1]
                    &&& rx.slot_ptr.cl_index == l % (after.cl_mask + 1)
                    &&& rx.slot_ptr.cl_offset == after.log@.read - after.log@.starts[l]
                    &&& after.cl_mask > 0 ==> after.free() + after.pending().len() + (
                    after.log@.starts.len() - 1 - l) * N == after.capacity
                },
            after.tail == rx.slot_ptr.cl_index,
            after.slots@ == before.slots@,
            after.head == before.head,
            after.cl_mask == before.cl_mask,
            after.capacity == before.capacity,
    {
        rx.law_stands_behind(after);
    }

    /// A consumer that looks for more takes up the oldest interruption, or, if there
    /// is none, all that was released. One that does not look learns nothing.
    pub proof fn law_looks(was: &Self, before: &Buffer<T, N>, rx: &Self, after: &Buffer<T, N>)
        ensures
            rx.has_looked(after, was, before, true) && before.interruptions@.len() > 0 ==> {
                &&& rx.cached_cl_write == before.interruptions@[0]
                &&& after.interruptions@ == before.interruptions@.skip(1)
            },
            rx.has_looked(after, was, before, true) && before.interruptions@.len() == 0 && before.head
                <= before.cl_mask ==> {
                &&& rx.cached_cl_write.cl_index == (before.head - 1) % (before.cl_mask + 1)
                &&& rx.cached_cl_write.cl_offset == N
                &&& after.interruptions@ == before.interruptions@
            },
            rx.has_looked(after, was, before, false) ==> {
                &&& rx.cached_cl_write == was.cached_cl_write
                &&& after.interruptions@ == before.interruptions@
            },
    {
        let c = before.cl_mask + 1;
        vstd::arithmetic::div_mod::lemma_mod_bound(before.head - 1, c);
    }

    /// After a batch was asked for, the consumer knows of all that was released, or
    /// of all up to the end of a part-filled line.
    pub proof fn law_batch_looks_as_far_as_it_can(
        was: &Self,
        before: &Buffer<T, N>,
        rx: &Self,
        after: &Buffer<T, N>,
    )
        requires
            was.wf(before),
            rx.has_looked(after, was, before, was.looks_further(before)),
        ensures
            rx.cached_cl_write.cl_offset < N || rx.cached_cl_write.cl_index == (before.head - 1) % (
            before.cl_mask + 1),
            was.cached_cl_write.cl_offset < N && was.slot_ptr != was.cached_cl_write ==> {
                &&& rx.cached_cl_write == was.cached_cl_write
                &&& after.interruptions@ == before.interruptions@
            },
            was.cached_cl_write.cl_index == (before.head - 1) % (before.cl_mask + 1) ==> {
                &&& rx.cached_cl_write == was.cached_cl_write
                &&& after.interruptions@ == before.interruptions@
            },
    {
        before.lemma_reach();
        before.lemma_head_and_tail();
        if before.interruptions@.len() > 0 {
            let first = before.progress@.breaks[0];
            assert(before.interruptions@[0] == before.end_of(first));
            assert(1 <= before.log@.fill(first));
        }
    }

    /// Where a batch goes on reading: at the start of the next line if the consumer
    /// has read a part-filled line to its end and something is visible, and where
    /// it stands otherwise.
    pub proof fn law_resumes(&self, buffer: &Buffer<T, N>)
        requires
            self.wf(buffer),
        ensures
            self.slot_ptr.cl_offset < N && self.slot_ptr == self.cached_cl_write
                && buffer.published().len() > 0 ==> {
                &&& buffer.resume_ptr().cl_index == (self.slot_ptr.cl_index + 1) % (buffer.cl_mask
                    + 1)
                &&& buffer.resume_ptr().cl_offset == 0
            },
            self.slot_ptr.cl_offset == N || self.slot_ptr != self.cached_cl_write
                || buffer.published().len() == 0 ==> buffer.resume_ptr() == self.slot_ptr,
    {
        self.lemma_positions(buffer);
        buffer.lemma_reach();
        buffer.lemma_not_at_break();
        buffer.lemma_head_and_tail();
        math::lemma_mod_shift(buffer.progress@.read_line, 1, buffer.lines());
    }
}

} // verus!
