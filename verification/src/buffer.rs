//! The ring that producer and consumer share.

use crate::consumer::Consumer;
use crate::interruption_tracker::InterruptionTracker;
use crate::log::Log;
use crate::math;
use crate::producer::Producer;
use crate::slot_ptr::SlotPtr;
use vstd::prelude::*;

verus! {

/// How far producer and consumer have come, with lines counted from the first
/// one ever written.
pub struct Progress {
    /// The line that `tail` stands for; -1 before the first one.
    pub tail_line: int,
    /// The line that the consumer stands in; -1 before the first one.
    pub read_line: int,
    /// How many slots of that line the consumer has left behind.
    pub read_offset: int,
    /// How many lines the consumer knows to be readable, or has read.
    pub seen: int,
    /// The part-filled lines among the released ones that the consumer does not
    /// know of yet.
    pub breaks: Seq<int>,
}

/// A ring of cache lines with `N` slots each.
///
/// `head` is the line that the producer owns, `tail` the last line that the
/// consumer has entered. What the ring holds is told by `log`.
pub struct Buffer<T, const N: usize> {
    pub head: usize,
    pub tail: usize,
    pub slots: Vec<Option<T>>,
    pub interruptions: InterruptionTracker,
    pub cl_mask: usize,
    pub capacity: usize,
    pub log: Ghost<Log<T>>,
    pub progress: Ghost<Progress>,
}

impl SlotPtr {
    /// How many slots lie before this position, counted from the first slot of
    /// line 0.
    pub open spec fn flat(self, n: int) -> int {
        self.cl_index * n + self.cl_offset
    }
}

impl<T, const N: usize> Buffer<T, N> {
    /// How many lines the ring has.
    pub open spec fn lines(&self) -> int {
        self.cl_mask + 1
    }

    /// Lines and slots come in powers of two, so that a mask wraps a position
    /// around.
    pub open spec fn laid_out(&self) -> bool {
        &&& 0 < N
        &&& math::is_power_of_two(self.lines())
        &&& math::is_power_of_two(self.capacity as int)
        &&& self.capacity == self.lines() * N
        &&& self.slots@.len() == self.capacity
    }

    /// Whether `ptr` points into the ring, or to the end of one of its lines.
    pub open spec fn on_ring(&self, ptr: SlotPtr) -> bool {
        ptr.cl_index <= self.cl_mask && ptr.cl_offset <= N
    }

    /// `ptr` moved on by `by` slots. A position on the border of two lines is
    /// written as the end of the first one, except at the very start of the ring.
    pub open spec fn advanced(&self, ptr: SlotPtr, by: int) -> SlotPtr {
        let to = ptr.flat(N as int) + by;
        if to % (N as int) == 0 && to > 0 {
            SlotPtr {
                cl_index: ((to / (N as int) - 1) % self.lines()) as usize,
                cl_offset: N,
            }
        } else {
            SlotPtr {
                cl_index: ((to / (N as int)) % self.lines()) as usize,
                cl_offset: (to % (N as int)) as usize,
            }
        }
    }

    /// How many lines behind the producer's own one are free.
    pub open spec fn spare_lines(&self) -> int {
        (self.tail - self.head - 1) % self.lines()
    }

    /// How many messages can be sent before the queue is full.
    pub open spec fn free(&self) -> int {
        self.spare_lines() * N + (N - self.pending().len())
    }

    /// The messages that the consumer can see and has not received.
    pub open spec fn published(&self) -> Seq<T> {
        self.log@.published()
    }

    /// The messages that still lie in the producer's own line.
    pub open spec fn pending(&self) -> Seq<T> {
        self.log@.pending()
    }

    /// How many messages one batch can take.
    pub open spec fn run(&self) -> int {
        self.log@.run(N as int)
    }

    /// How far the producer may get ahead of `tail`, in lines.
    pub open spec fn gap_limit(&self) -> int {
        if self.lines() == 1 {
            1
        } else {
            self.lines() - 1
        }
    }

    /// `head` and `tail` stand for lines at most one lap apart.
    pub open spec fn counters_wf(&self) -> bool {
        let progress = self.progress@;
        &&& self.head == self.log@.write_line() % self.lines()
        &&& self.tail == progress.tail_line % self.lines()
        &&& -1 <= progress.tail_line
        &&& self.log@.write_line() - progress.tail_line <= self.gap_limit()
        &&& self.lines() == 1 ==> self.log@.write_line() == 0
    }

    /// The consumer stands between the line that `tail` stands for and the end
    /// of what it knows to be readable, and no part-filled line lies between.
    pub open spec fn reader_wf(&self) -> bool {
        let log = self.log@;
        let line = self.progress@.read_line;
        let offset = self.progress@.read_offset;
        let seen = self.progress@.seen;
        &&& self.progress@.tail_line <= line < seen <= log.write_line()
        &&& line < 0 ==> offset == N && log.read == 0
        &&& line >= 0 ==> {
            &&& 0 <= offset <= log.fill(line) || offset == N
            &&& log.read == if offset <= log.fill(line) {
                log.starts[line] + offset
            } else {
                log.end(line)
            }
            &&& offset == 0 ==> self.progress@.tail_line < line || line % self.lines() == 0
            &&& line == seen - 1 ==> offset <= log.fill(line)
            &&& line < seen - 1 && offset < N ==> log.fill(line) == N
        }
        &&& forall|l: int| line < l < seen - 1 ==> #[trigger] log.fill(l) == N
    }

    /// Where the messages of line `l` end.
    pub open spec fn end_of(&self, l: int) -> SlotPtr {
        SlotPtr {
            cl_index: (l % self.lines()) as usize,
            cl_offset: if l < 0 {
                N
            } else {
                self.log@.fill(l) as usize
            },
        }
    }

    /// The interruptions tell where the part-filled lines end that the consumer
    /// does not know of.
    pub open spec fn breaks_wf(&self) -> bool {
        let log = self.log@;
        let seen = self.progress@.seen;
        let breaks = self.progress@.breaks;
        &&& forall|i: int, j: int| 0 <= i < j < breaks.len() ==> breaks[i] < breaks[j]
        &&& forall|i: int|
            0 <= i < breaks.len() ==> seen <= #[trigger] breaks[i] < log.write_line() && log.fill(
                breaks[i],
            ) < N
        &&& forall|l: int|
            seen <= l < log.write_line() && #[trigger] log.fill(l) < N ==> breaks.contains(l)
        &&& self.interruptions@.len() == breaks.len()
        &&& forall|i: int|
            0 <= i < breaks.len() ==> #[trigger] self.interruptions@[i] == self.end_of(breaks[i])
    }

    /// Every message that was not delivered lies in its slot.
    pub open spec fn slots_wf(&self) -> bool {
        let log = self.log@;
        forall|l: int, k: int|
            #![trigger math::slot_index(l, k, self.lines(), N as int)]
            0 <= l && self.progress@.read_line <= l <= log.write_line() && 0 <= k < log.fill(l)
                && log.read <= log.starts[l] + k ==> self.slots@[math::slot_index(
                l,
                k,
                self.lines(),
                N as int,
            )] == Some(log.messages[log.starts[l] + k])
    }

    /// The ring is in a state that sending and receiving can bring about.
    pub open spec fn wf(&self) -> bool {
        &&& self.laid_out()
        &&& self.log@.wf(N as int)
        &&& self.counters_wf()
        &&& self.reader_wf()
        &&& self.breaks_wf()
        &&& self.slots_wf()
    }

    /// Makes an empty queue with room for `capacity` slots, and its two ends.
    ///
    /// The queue works if `N` and `capacity` are powers of two.
    #[must_use]
    pub fn with_capacity(capacity: usize) -> (channel: (Self, Producer<T, N>, Consumer<T, N>))
        requires
            0 < N <= capacity,
        ensures
            channel.0.capacity == capacity,
            channel.0.cl_mask == capacity / N - 1,
            channel.0.slots@ == Seq::new((capacity / N * N) as nat, |i: int| None::<T>),
            channel.0.head == 0,
            channel.0.tail == channel.0.cl_mask,
            channel.0.interruptions@.len() == 0,
            channel.0.log@ == Log::<T>::empty(),
            channel.1.slot_ptr == (SlotPtr { cl_index: 0, cl_offset: 0 }),
            channel.1.cached_cl_read == (SlotPtr { cl_index: channel.0.cl_mask, cl_offset: N }),
            channel.2.slot_ptr == (SlotPtr { cl_index: channel.0.cl_mask, cl_offset: N }),
            channel.2.cached_cl_write == (SlotPtr { cl_index: channel.0.cl_mask, cl_offset: N }),
            math::is_power_of_two(N as int) && math::is_power_of_two(capacity as int) ==> {
                &&& channel.1.wf(&channel.0)
                &&& channel.2.wf(&channel.0)
                &&& channel.0.published().len() == 0
                &&& channel.0.pending().len() == 0
                &&& channel.0.free() == if capacity == N {
                    N as int
                } else {
                    capacity - N
                }
            },
    {
        let cache_lines = capacity / N;
        proof {
            vstd::arithmetic::div_mod::lemma_fundamental_div_mod(capacity as int, N as int);
            vstd::arithmetic::div_mod::lemma_div_non_zero(capacity as int, N as int);
            assert(cache_lines * N == N * cache_lines) by (nonlinear_arith);
        }
        let total: usize = cache_lines * N;
        let mut slots: Vec<Option<T>> = Vec::new();
        while slots.len() < total
            invariant
                slots@.len() <= total,
                forall|i: int| 0 <= i < slots@.len() ==> slots@[i] is None,
            decreases total - slots@.len(),
        {
            slots.push(None);
        }
        assert(slots@ =~= Seq::new(total as nat, |i: int| None::<T>));
        let cl_mask: usize = cache_lines - 1;
        let buffer = Buffer {
            head: 0,
            tail: cl_mask,
            slots,
            interruptions: InterruptionTracker::new(),
            cl_mask,
            capacity,
            log: Ghost(Log::empty()),
            progress: Ghost(
                Progress {
                    tail_line: -1,
                    read_line: -1,
                    read_offset: N as int,
                    seen: 0,
                    breaks: Seq::empty(),
                },
            ),
        };
        let producer = Producer::new(&buffer);
        let consumer = Consumer::new(&buffer);
        proof {
            if math::is_power_of_two(N as int) && math::is_power_of_two(capacity as int) {
                math::lemma_power_of_two_quotient(capacity as int, N as int);
                assert(buffer.lines() == cache_lines);
                assert((-1int) % buffer.lines() == cl_mask) by {
                    vstd::arithmetic::div_mod::lemma_fundamental_div_mod_converse(
                        -1,
                        buffer.lines(),
                        -1,
                        cl_mask as int,
                    );
                }
                assert(0int % buffer.lines() == 0) by {
                    vstd::arithmetic::div_mod::lemma_small_mod(0, buffer.lines() as nat);
                }
                assert(buffer.wf());
                buffer.lemma_spare_lines();
                let c = buffer.lines();
                assert(c == 1 <==> capacity == N) by (nonlinear_arith)
                    requires
                        capacity == c * N,
                        0 < N,
                ;
                assert((c - 2) * N + N == capacity - N && 0 * N == 0) by (nonlinear_arith)
                    requires
                        capacity == c * N,
                ;
            }
        }
        (buffer, producer, consumer)
    }

    /// The free lines, in terms of the lines that `head` and `tail` stand for.
    pub proof fn lemma_spare_lines(&self)
        requires
            self.laid_out(),
            self.counters_wf(),
            self.log@.starts.len() > 0,
            self.progress@.tail_line < self.log@.write_line(),
        ensures
            self.spare_lines() == self.gap_limit() - (self.log@.write_line()
                - self.progress@.tail_line),
            self.spare_lines() >= 0,
    {
        let c = self.lines();
        let w = self.log@.write_line();
        let t = self.progress@.tail_line;
        vstd::arithmetic::div_mod::lemma_fundamental_div_mod(w, c);
        math::lemma_mod_shift(t, -w - 1, c);
        vstd::arithmetic::div_mod::lemma_mod_multiples_vanish(w / c, self.tail - w - 1, c);
        if c > 1 {
            vstd::arithmetic::div_mod::lemma_fundamental_div_mod_converse(
                t - w - 1,
                c,
                -1,
                c - 1 - (w - t),
            );
        }
    }

    /// How many slots lie from `lo` to `hi`, going forward around the ring.
    pub fn flat_dist(&self, lo: SlotPtr, hi: SlotPtr) -> (dist: usize)
        requires
            math::is_power_of_two(self.capacity as int),
            lo.flat(N as int) <= usize::MAX,
            hi.flat(N as int) <= usize::MAX,
        ensures
            dist == math::ring_distance(
                lo.flat(N as int),
                hi.flat(N as int),
                self.capacity as int,
            ),
    {
        proof {
            Self::lemma_flat_parts(lo);
            Self::lemma_flat_parts(hi);
            math::lemma_mask_is_mod((lo.cl_index * N + lo.cl_offset) as usize, self.capacity);
            math::lemma_mask_is_mod((hi.cl_index * N + hi.cl_offset) as usize, self.capacity);
        }
        let slot_mask: usize = self.capacity - 1;
        let flat_lo: usize = (lo.cl_index * N + lo.cl_offset) & slot_mask;
        let flat_hi: usize = (hi.cl_index * N + hi.cl_offset) & slot_mask;
        proof {
            math::lemma_masked_difference(flat_hi, flat_lo, self.capacity);
            math::lemma_ring_distance_wraps(
                lo.flat(N as int),
                hi.flat(N as int),
                self.capacity as int,
            );
        }
        flat_hi.wrapping_sub(flat_lo) & slot_mask
    }

    proof fn lemma_flat_parts(ptr: SlotPtr)
        ensures
            0 <= ptr.cl_index * N <= ptr.flat(N as int),
    {
        assert(0 <= ptr.cl_index * N) by (nonlinear_arith);
    }

    /// A pointer into the ring stands for a slot number up to the capacity.
    pub proof fn lemma_flat_bound(&self, ptr: SlotPtr)
        requires
            self.laid_out(),
            self.on_ring(ptr),
        ensures
            0 <= ptr.cl_index * N <= self.capacity - N,
            0 <= ptr.flat(N as int) <= self.capacity,
    {
        let c = self.lines();
        assert(0 <= ptr.cl_index * N <= c * N - N) by (nonlinear_arith)
            requires
                0 <= ptr.cl_index <= c - 1,
        ;
    }

    /// The mask wraps a line number around the ring, also the one before it.
    pub proof fn lemma_line_mask(&self, x: usize)
        requires
            self.laid_out(),
        ensures
            self.lines() <= usize::MAX,
            x & self.cl_mask == x as int % self.lines(),
            x.wrapping_sub(1) & self.cl_mask == (x - 1) % self.lines(),
    {
        let c = self.lines();
        assert(c <= c * N) by (nonlinear_arith)
            requires
                0 < c,
                0 < N,
        ;
        math::lemma_mask_is_mod(x, c as usize);
        math::lemma_masked_difference(x, 1, c as usize);
    }

    /// The largest batch: one line is never available.
    pub fn max_size(&self) -> (size: usize)
        requires
            N <= self.capacity,
        ensures
            size == self.capacity - N,
    {
        self.capacity - N
    }

    /// Moves `slot_ptr` on by `by` slots.
    pub fn advance_slot_ptr(&self, slot_ptr: &mut SlotPtr, by: usize)
        requires
            self.laid_out(),
            self.on_ring(*old(slot_ptr)),
            old(slot_ptr).flat(N as int) + by <= usize::MAX,
        ensures
            *final(slot_ptr) == self.advanced(*old(slot_ptr), by as int),
            self.on_ring(*final(slot_ptr)),
    {
        proof {
            self.lemma_flat_bound(*slot_ptr);
        }
        let ghost n = N as int;
        let ghost c = self.lines();
        let from_abs_index: usize = slot_ptr.cl_index * N + slot_ptr.cl_offset;
        let to_abs_index: usize = from_abs_index + by;
        let final_abs_index: usize = to_abs_index % self.capacity;
        let quotient: usize = final_abs_index / N;
        let cl_index: usize = quotient & self.cl_mask;
        let cl_offset: usize = final_abs_index % N;
        proof {
            let to = to_abs_index as int;
            vstd::arithmetic::div_mod::lemma_small_mod(0, c as nat);
            math::lemma_walk(0, to, c, n);
            assert((0int % c) * n == 0) by (nonlinear_arith)
                requires
                    0int % c == 0,
            ;
            assert(final_abs_index == math::slot_index(to / n, to % n, c, n));
            math::lemma_line_and_offset((to / n) % c, to % n, n);
            self.lemma_line_mask(quotient);
            self.lemma_line_mask(cl_index);
            vstd::arithmetic::div_mod::lemma_mod_twice(to / n, c);
            math::lemma_mod_shift(to / n, -1, c);
        }
        if cl_offset == 0 && to_abs_index > 0 {
            slot_ptr.set(cl_index.wrapping_sub(1) & self.cl_mask, N);
        } else {
            slot_ptr.set(cl_index, cl_offset);
        }
    }

    /// The `len` slots from `from` on, as the part up to the end of the ring and
    /// the part from its start.
    pub fn as_slice(&self, from: SlotPtr, len: usize) -> (parts: (&[Option<T>], &[Option<T>]))
        requires
            self.laid_out(),
            self.on_ring(from),
            len <= self.capacity,
        ensures
            parts.0@ == self.slots@.subrange(
                from.flat(N as int),
                from.flat(N as int) + self.unwrapped(from, len as int),
            ),
            parts.1@ == self.slots@.subrange(0, len - self.unwrapped(from, len as int)),
    {
        proof {
            self.lemma_flat_bound(from);
        }
        let from_abs_index: usize = from.cl_index * N + from.cl_offset;
        let (low, high) = self.slots.as_slice().split_at(from_abs_index);
        if len <= self.capacity - from_abs_index {
            let (first, _) = high.split_at(len);
            let (second, _) = low.split_at(0);
            assert(first@ =~= self.slots@.subrange(from_abs_index as int, from_abs_index + len));
            (first, second)
        } else {
            let first_len: usize = self.capacity - from_abs_index;
            let (second, _) = low.split_at(len - first_len);
            assert(second@ =~= self.slots@.subrange(0, len - first_len));
            (high, second)
        }
    }

    /// How many of the `len` slots from `from` on come before the end of the ring.
    pub open spec fn unwrapped(&self, from: SlotPtr, len: int) -> int {
        if from.flat(N as int) + len <= self.capacity {
            len
        } else {
            self.capacity - from.flat(N as int)
        }
    }

    /// The `len` slots from `from` on, for writing.
    pub fn as_slice_mut(
        &mut self,
        from: SlotPtr,
        len: usize,
    ) -> (parts: (&mut [Option<T>], &mut [Option<T>]))
        requires
            old(self).laid_out(),
            old(self).on_ring(from),
            len <= old(self).capacity,
        ensures
            parts.0@ == old(self).slots@.subrange(
                from.flat(N as int),
                from.flat(N as int) + old(self).unwrapped(from, len as int),
            ),
            parts.1@ == old(self).slots@.subrange(0, len - old(self).unwrapped(from, len as int)),
            *final(self) == (Buffer { slots: final(self).slots, ..*old(self) }),
            final(self).slots@ == final(parts.1)@ + old(self).slots@.subrange(
                len - old(self).unwrapped(from, len as int),
                from.flat(N as int),
            ) + final(parts.0)@ + old(self).slots@.subrange(
                from.flat(N as int) + old(self).unwrapped(from, len as int),
                old(self).capacity as int,
            ),
    {
        proof {
            self.lemma_flat_bound(from);
        }
        let from_abs_index: usize = from.cl_index * N + from.cl_offset;
        let capacity = self.capacity;
        let ghost all = self.slots@;
        let (low, high) = self.slots.as_mut_slice().split_at_mut(from_abs_index);
        if len <= capacity - from_abs_index {
            let (first, _rest) = high.split_at_mut(len);
            let (second, _low) = low.split_at_mut(0);
            assert(first@ =~= all.subrange(from_abs_index as int, from_abs_index + len));
            assert(all.subrange(from_abs_index as int, all.len() as int).subrange(
                len as int,
                all.len() - from_abs_index,
            ) =~= all.subrange(from_abs_index + len, all.len() as int));
            assert(all.subrange(0, from_abs_index as int).subrange(0, from_abs_index as int)
                =~= all.subrange(0, from_abs_index as int));
            (first, second)
        } else {
            let first_len: usize = capacity - from_abs_index;
            let (second, _low) = low.split_at_mut(len - first_len);
            assert(second@ =~= all.subrange(0, len - first_len));
            assert(all.subrange(0, from_abs_index as int).subrange(
                len - first_len,
                from_abs_index as int,
            ) =~= all.subrange(len - first_len, from_abs_index as int));
            (high, second)
        }
    }
}

/// A batch that fits is taken whole, and one that does not is cut to what fits.
pub proof fn law_batch_is_taken_as_it_fits(requested: int, max_size: int, available: int)
    ensures
        requested <= max_size && requested <= available ==> math::least(
            requested,
            max_size,
            available,
        ) == requested,
        max_size <= requested && max_size <= available ==> math::least(
            requested,
            max_size,
            available,
        ) == max_size,
        available <= requested && available <= max_size ==> math::least(
            requested,
            max_size,
            available,
        ) == available,
{
    math::law_least(requested, max_size, available);
}

/// Takes as much of a batch as fits.
pub fn clamp_batch_size<E>(
    requested: usize,
    max_size: usize,
    available: usize,
    empty_err: E,
) -> (size: Result<usize, E>)
    ensures
        size == if math::least(requested as int, max_size as int, available as int) == 0 {
            Err(empty_err)
        } else {
            Ok(math::least(requested as int, max_size as int, available as int) as usize)
        },
        match size {
            Ok(k) => {
                &&& 0 < k <= requested && k <= max_size && k <= available
                &&& k == requested || k == max_size || k == available
            },
            Err(error) => {
                &&& error == empty_err
                &&& requested == 0 || max_size == 0 || available == 0
            },
        },
{
    let size: usize = requested.min(max_size).min(available);
    if size == 0 {
        Err(empty_err)
    } else {
        Ok(size)
    }
}

/// Takes a whole batch or nothing.
pub fn validate_exact_batch_size<E>(
    requested: usize,
    max_size: usize,
    available: usize,
    empty_err: E,
    too_large_err: E,
) -> (size: Result<usize, E>)
    ensures
        requested > max_size ==> size == Err::<usize, E>(too_large_err),
        requested <= max_size && requested > available ==> size == Err::<usize, E>(empty_err),
        requested <= max_size && requested <= available ==> size == Ok::<usize, E>(requested),
{
    if requested > max_size {
        Err(too_large_err)
    } else if requested > available {
        Err(empty_err)
    } else {
        Ok(requested)
    }
}

} // verus!
