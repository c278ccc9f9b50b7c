//! Which slots of a ring are in use, as a list of spans.

use crate::math;
use crate::slot_ptr::SlotPtr;
use std::collections::VecDeque;
use vstd::prelude::*;

verus! {

/// How many bits of a packed position hold the offset.
pub const OFFSET_BITS: usize = 8;

/// The bits of a packed position that hold the offset.
pub const OFFSET_MASK: usize = 255;

/// A position in one word: the offset modulo 256, and as much of the line number
/// as fits beside it.
pub open spec fn packed(ptr: SlotPtr) -> int {
    (ptr.cl_index as int % (usize::MAX as int / 256 + 1)) * 256 + ptr.cl_offset as int % 256
}

/// The slot number that a packed position stands for, with `n` slots to the line.
pub open spec fn flat(packed: usize, n: int) -> int {
    (packed as int / 256) * n + packed as int % 256
}

/// `hi - lo` with wrap-around, cut down to the bits of `mask`.
pub open spec fn masked_difference(hi: usize, lo: usize, mask: usize) -> usize {
    hi.wrapping_sub(lo) & mask
}

/// The difference wraps around the word and keeps the bits of the mask. On a ring
/// of a power of two of slots, that is the way from `lo` to `hi`.
pub proof fn law_masked_difference(hi: usize, lo: usize, mask: usize)
    ensures
        masked_difference(hi, lo, mask) == hi.wrapping_sub(lo) & mask,
        mask < usize::MAX && math::is_power_of_two(mask + 1) ==> masked_difference(hi, lo, mask) == (
        hi - lo) % (mask + 1),
{
    if mask < usize::MAX && math::is_power_of_two(mask + 1) {
        math::lemma_masked_difference(hi, lo, (mask + 1) as usize);
    }
}

/// The slots from `lo` up to `hi`, both packed.
pub struct Span {
    pub lo: usize,
    pub hi: usize,
}

impl Span {
    /// The span from `lo` to `hi`.
    pub fn new(lo: usize, hi: usize) -> (span: Self)
        ensures
            span == (Span { lo, hi }),
    {
        Span { lo, hi }
    }

    /// Whether both ends stand for slot numbers that fit in a word.
    pub open spec fn fits(self, n: int) -> bool {
        flat(self.lo, n) <= usize::MAX && flat(self.hi, n) <= usize::MAX
    }

    /// How many slots the span has, on a ring of `size` slots.
    pub open spec fn size(self, n: int, size: int) -> int {
        math::ring_distance(flat(self.lo, n), flat(self.hi, n), size)
    }

    /// The distance from end to end that the bits of `mask` can tell.
    pub open spec fn masked_len(self, n: int, mask: usize) -> usize {
        masked_difference(
            flat(self.hi, n) as usize & mask,
            flat(self.lo, n) as usize & mask,
            mask,
        )
    }

    /// How many slots the span has. The bits of `slot_mask` can tell if there are
    /// `slot_mask + 1` slots, and that is a power of two.
    pub fn len<const N: usize>(&self, slot_mask: usize) -> (len: usize)
        requires
            self.fits(N as int),
        ensures
            len == self.masked_len(N as int, slot_mask),
            slot_mask < usize::MAX && math::is_power_of_two(slot_mask + 1) ==> len == self.size(
                N as int,
                slot_mask + 1,
            ),
    {
        let (lo_cl_index, lo_cl_offset) = SlotTracker::<N>::unpack(self.lo);
        let (hi_cl_index, hi_cl_offset) = SlotTracker::<N>::unpack(self.hi);
        proof {
            lemma_flat_parts(self.lo, N as int);
            lemma_flat_parts(self.hi, N as int);
            if slot_mask < usize::MAX && math::is_power_of_two(slot_mask + 1) {
                self.lemma_masked_len(N as int, slot_mask);
            }
        }
        let flat_lo: usize = (lo_cl_index * N + lo_cl_offset) & slot_mask;
        let flat_hi: usize = (hi_cl_index * N + hi_cl_offset) & slot_mask;
        flat_hi.wrapping_sub(flat_lo) & slot_mask
    }

    /// On a ring whose size is a power of two, the mask can tell the size.
    proof fn lemma_masked_len(self, n: int, mask: usize)
        requires
            0 <= n,
            self.fits(n),
            mask < usize::MAX,
            math::is_power_of_two(mask + 1),
        ensures
            self.masked_len(n, mask) == self.size(n, mask + 1),
    {
        lemma_flat_parts(self.lo, n);
        lemma_flat_parts(self.hi, n);
        lemma_masked_distance(flat(self.hi, n) as usize, flat(self.lo, n) as usize, mask);
    }
}

proof fn lemma_flat_parts(packed: usize, n: int)
    requires
        0 <= n,
    ensures
        0 <= (packed as int / 256) * n <= flat(packed, n),
{
    let q = packed as int / 256;
    assert(0 <= q * n) by (nonlinear_arith)
        requires
            0 <= q,
            0 <= n,
    ;
}

/// On a ring whose size is a power of two, masks give distances.
proof fn lemma_masked_distance(hi: usize, lo: usize, mask: usize)
    requires
        mask < usize::MAX,
        math::is_power_of_two(mask + 1),
    ensures
        masked_difference(hi, lo, mask) == math::ring_distance(lo as int, hi as int, mask + 1),
        masked_difference(hi & mask, lo & mask, mask) == math::ring_distance(
            lo as int,
            hi as int,
            mask + 1,
        ),
{
    let size = (mask + 1) as usize;
    math::lemma_mask_is_mod(hi, size);
    math::lemma_mask_is_mod(lo, size);
    math::lemma_masked_difference(hi, lo, size);
    math::lemma_masked_difference(hi & mask, lo & mask, size);
    math::lemma_ring_distance_wraps(lo as int, hi as int, size as int);
}

/// The total size of spans.
pub open spec fn total(spans: Seq<Span>, n: int, size: int) -> int
    decreases spans.len(),
{
    if spans.len() == 0 {
        0
    } else {
        total(spans.drop_last(), n, size) + spans.last().size(n, size)
    }
}

/// The total length of spans, as far as the bits of `mask` can tell.
pub open spec fn masked_total(spans: Seq<Span>, n: int, mask: usize) -> int
    decreases spans.len(),
{
    if spans.len() == 0 {
        0
    } else {
        masked_total(spans.drop_last(), n, mask) + spans.last().masked_len(n, mask)
    }
}

proof fn lemma_total_monotone(spans: Seq<Span>, i: int, n: int, mask: usize)
    requires
        0 <= i <= spans.len(),
    ensures
        0 <= masked_total(spans.take(i), n, mask) <= masked_total(spans, n, mask),
    decreases spans.len(),
{
    if i < spans.len() {
        lemma_total_monotone(spans.drop_last(), i, n, mask);
        assert(spans.drop_last().take(i) =~= spans.take(i));
    } else {
        assert(spans.take(i) =~= spans);
        if spans.len() > 0 {
            lemma_total_monotone(spans.drop_last(), spans.len() - 1, n, mask);
        }
    }
}

/// On a ring whose size is a power of two, the mask can tell the total size.
pub proof fn law_masked_total(spans: Seq<Span>, n: int, mask: usize)
    requires
        0 <= n,
        mask < usize::MAX,
        math::is_power_of_two(mask + 1),
        forall|i: int| 0 <= i < spans.len() ==> (#[trigger] spans[i]).fits(n),
    ensures
        masked_total(spans, n, mask) == total(spans, n, mask + 1),
    decreases spans.len(),
{
    if spans.len() > 0 {
        assert(spans.last() == spans[spans.len() - 1]);
        spans.last().lemma_masked_len(n, mask);
        law_masked_total(spans.drop_last(), n, mask);
    }
}

/// Keeps track of the slots in use, in lines of `N` slots.
///
/// There is always at least one span. The first one is where slots become free,
/// the last one is where slots come into use.
pub struct SlotTracker<const N: usize> {
    spans: VecDeque<Span>,
    cl_mask: usize,
}

impl<const N: usize> SlotTracker<N> {
    /// The spans, the oldest first.
    pub closed spec fn view(&self) -> Seq<Span> {
        self.spans@
    }

    /// One less than the number of slots.
    pub closed spec fn mask(&self) -> usize {
        self.cl_mask
    }

    /// Whether slot `start`, the first one of a line, lies in `span`.
    pub open spec fn covers(&self, span: Span, start: usize) -> bool {
        let lo = flat(span.lo, N as int) as usize;
        let hi = flat(span.hi, N as int) as usize;
        masked_difference(start, lo, self.mask()) < masked_difference(hi, lo, self.mask())
    }

    /// How many slots of the line that begins at slot `start` are in use,
    /// according to the first span from number `i` on that covers its first slot.
    pub open spec fn occupied(&self, start: usize, i: int) -> int
        decreases self@.len() - i,
    {
        if i >= self@.len() {
            0
        } else if self.covers(self@[i], start) {
            let remaining = masked_difference(
                flat(self@[i].hi, N as int) as usize,
                start,
                self.mask(),
            );
            if remaining < N {
                remaining as int
            } else {
                N as int
            }
        } else {
            self.occupied(start, i + 1)
        }
    }

    /// Whether a tracker is in a state that it can get into.
    pub open spec fn wf(&self) -> bool {
        self@.len() > 0 && self.mask() < usize::MAX
    }

    /// Puts a position in one word.
    pub fn pack(ptr: SlotPtr) -> (word: usize)
        ensures
            word == packed(ptr),
    {
        let word: usize = (ptr.cl_index << OFFSET_BITS) | (ptr.cl_offset & OFFSET_MASK);
        proof {
            let i = ptr.cl_index;
            let o = ptr.cl_offset;
            assert(word >> 8usize == i & (!0usize >> 8usize) && word & 255usize == o & 255usize)
                by (bit_vector)
                requires
                    word == (i << 8usize) | (o & 255usize),
            ;
            vstd::arithmetic::power2::lemma2_to64();
            vstd::arithmetic::power2::lemma2_to64_rest();
            vstd::bits::lemma_usize_shr_is_div(word, 8);
            vstd::bits::lemma_usize_shr_is_div(!0usize, 8);
            let max = usize::MAX;
            assert(max <= !0usize) by (bit_vector);
            assert(math::is_power_of_two(256)) by {
                assert(vstd::arithmetic::power2::pow2(8) == 256);
            }
            math::lemma_mask_is_mod(word, 256);
            math::lemma_mask_is_mod(o, 256);
            assert(math::is_power_of_two(usize::MAX as int / 256 + 1)) by {
                assert(vstd::arithmetic::power2::pow2((usize::BITS - 8) as nat) == usize::MAX as int
                    / 256 + 1);
            }
            math::lemma_mask_is_mod(i, (usize::MAX as int / 256 + 1) as usize);
        }
        word
    }

    /// The line number and the offset of a packed position.
    pub fn unpack(packed: usize) -> (position: (usize, usize))
        ensures
            position.0 == packed as int / 256,
            position.1 == packed as int % 256,
    {
        proof {
            vstd::arithmetic::power2::lemma2_to64();
            vstd::bits::lemma_usize_shr_is_div(packed, 8);
            assert(math::is_power_of_two(256)) by {
                assert(vstd::arithmetic::power2::pow2(8) == 256);
            }
            math::lemma_mask_is_mod(packed, 256);
        }
        let cl_index: usize = packed >> OFFSET_BITS;
        let cl_offset: usize = packed & OFFSET_MASK;
        (cl_index, cl_offset)
    }

    /// A position whose offset is below 256, in a line whose number fits beside
    /// it, survives packing.
    pub proof fn law_unpack_packed(ptr: SlotPtr)
        requires
            ptr.cl_index <= usize::MAX as int / 256,
            ptr.cl_offset < 256,
        ensures
            packed(ptr) / 256 == ptr.cl_index,
            packed(ptr) % 256 == ptr.cl_offset,
            forall|n: int|
                #![trigger flat(packed(ptr) as usize, n)]
                flat(packed(ptr) as usize, n) == ptr.cl_index * n + ptr.cl_offset,
            forall|n: int| flat(packed(ptr) as usize, n) == ptr.flat(n),
    {
        vstd::arithmetic::div_mod::lemma_small_mod(
            ptr.cl_index as nat,
            (usize::MAX as int / 256 + 1) as nat,
        );
        math::lemma_line_and_offset(ptr.cl_index as int, ptr.cl_offset as int, 256);
        assert(packed(ptr) <= usize::MAX);
    }

    /// Packing keeps the low bits of both parts of a position, whatever they are.
    pub proof fn law_packed(ptr: SlotPtr)
        ensures
            0 <= packed(ptr) <= usize::MAX,
            packed(ptr) % 256 == ptr.cl_offset as int % 256,
            packed(ptr) / 256 == ptr.cl_index as int % (usize::MAX as int / 256 + 1),
    {
        math::lemma_line_and_offset(
            ptr.cl_index as int % (usize::MAX as int / 256 + 1),
            ptr.cl_offset as int % 256,
            256,
        );
    }

    /// A tracker for a ring of `capacity` slots, with a span from the start of
    /// line `tail_cl_index` to the start of line `head_cl_index`.
    pub fn new(capacity: usize, tail_cl_index: usize, head_cl_index: usize) -> (tracker: Self)
        requires
            capacity > 0,
        ensures
            tracker.wf(),
            tracker.mask() == capacity - 1,
            tracker@ == seq![
                Span {
                    lo: packed(SlotPtr { cl_index: tail_cl_index, cl_offset: 0 }) as usize,
                    hi: packed(SlotPtr { cl_index: head_cl_index, cl_offset: 0 }) as usize,
                },
            ],
    {
        let tail_packed = Self::pack(SlotPtr::from((tail_cl_index, 0)));
        let head_packed = Self::pack(SlotPtr::from((head_cl_index, 0)));
        let mut spans: VecDeque<Span> = VecDeque::new();
        spans.push_back(Span::new(tail_packed, head_packed));
        let tracker = SlotTracker { spans, cl_mask: capacity - 1 };
        assert(tracker@ =~= seq![Span { lo: tail_packed, hi: head_packed }]);
        tracker
    }

    /// Puts the slots from `lo_ptr` to `hi_ptr` in use: they extend the last span
    /// if they follow it, and make a new one otherwise.
    pub fn mark_used(&mut self, lo_ptr: SlotPtr, hi_ptr: SlotPtr)
        requires
            old(self).wf(),
        ensures
            final(self).wf(),
            final(self).mask() == old(self).mask(),
            final(self)@ == if packed(lo_ptr) == old(self)@.last().hi {
                old(self)@.drop_last().push(
                    Span { hi: packed(hi_ptr) as usize, ..old(self)@.last() },
                )
            } else {
                old(self)@.push(
                    Span { lo: packed(lo_ptr) as usize, hi: packed(hi_ptr) as usize },
                )
            },
    {
        let lo = Self::pack(lo_ptr);
        let hi = Self::pack(hi_ptr);
        let head_hi = self.spans[self.spans.len() - 1].hi;
        // extend the last span
        if lo == head_hi {
            if let Some(head) = self.spans.pop_back() {
                self.spans.push_back(Span::new(head.lo, hi));
            }
            assert(self@ =~= old(self)@.drop_last().push(Span { hi, ..old(self)@.last() }));
        }
        // add a new span
         else {
            self.spans.push_back(Span::new(lo, hi));
        }
    }

    /// Frees the slots of the first span up to `hi_ptr`. The span goes away if
    /// nothing of it is left and it is not the only one.
    pub fn mark_free(&mut self, hi_ptr: SlotPtr)
        requires
            old(self).wf(),
        ensures
            final(self).wf(),
            final(self).mask() == old(self).mask(),
            final(self)@ == if packed(hi_ptr) == old(self)@[0].hi && old(self)@.len() > 1 {
                old(self)@.skip(1)
            } else {
                old(self)@.update(0, Span { lo: packed(hi_ptr) as usize, ..old(self)@[0] })
            },
    {
        let hi = Self::pack(hi_ptr);
        let tail_hi = self.spans[0].hi;
        let alone = self.spans.len() == 1;
        let _ = self.spans.pop_front();
        // a span that was read to its end stays only if there is no other one
        if hi != tail_hi || alone {
            self.spans.push_front(Span::new(hi, tail_hi));
            assert(self@ =~= old(self)@.update(0, Span { lo: hi, ..old(self)@[0] }));
        } else {
            assert(self@ =~= old(self)@.skip(1));
        }
    }

    /// How many slots a reader at `r_ptr` can go on before the end of the first
    /// span.
    pub fn next_used(&self, r_ptr: SlotPtr) -> (dist: usize)
        requires
            self.wf(),
            flat(self@[0].hi, N as int) <= usize::MAX,
            r_ptr.flat(N as int) <= usize::MAX,
        ensures
            dist == masked_difference(
                flat(self@[0].hi, N as int) as usize & self.mask(),
                r_ptr.flat(N as int) as usize & self.mask(),
                self.mask(),
            ),
            math::is_power_of_two(self.mask() + 1) ==> dist == math::ring_distance(
                r_ptr.flat(N as int),
                flat(self@[0].hi, N as int),
                self.mask() + 1,
            ),
    {
        let tail_hi = self.spans[0].hi;
        let (w_cl_index, w_cl_offset) = Self::unpack(tail_hi);
        proof {
            lemma_flat_parts(tail_hi, N as int);
            assert(0 <= r_ptr.cl_index * N) by (nonlinear_arith);
            if math::is_power_of_two(self.mask() + 1) {
                lemma_masked_distance(
                    flat(tail_hi, N as int) as usize,
                    r_ptr.flat(N as int) as usize,
                    self.mask(),
                );
            }
        }
        let flat_w: usize = (w_cl_index * N + w_cl_offset) & self.cl_mask;
        let flat_r: usize = (r_ptr.cl_index * N + r_ptr.cl_offset) & self.cl_mask;
        flat_w.wrapping_sub(flat_r) & self.cl_mask
    }

    /// How many slots a writer at `w_ptr` can go on before the start of the first
    /// span.
    pub fn next_free(&self, w_ptr: SlotPtr) -> (dist: usize)
        requires
            self.wf(),
            flat(self@[0].lo, N as int) <= usize::MAX,
            w_ptr.flat(N as int) <= usize::MAX,
        ensures
            dist == masked_difference(
                flat(self@[0].lo, N as int) as usize & self.mask(),
                w_ptr.flat(N as int) as usize & self.mask(),
                self.mask(),
            ),
            math::is_power_of_two(self.mask() + 1) ==> dist == math::ring_distance(
                w_ptr.flat(N as int),
                flat(self@[0].lo, N as int),
                self.mask() + 1,
            ),
    {
        let tail_lo = self.spans[0].lo;
        let (r_cl_index, r_cl_offset) = Self::unpack(tail_lo);
        proof {
            lemma_flat_parts(tail_lo, N as int);
            assert(0 <= w_ptr.cl_index * N) by (nonlinear_arith);
            if math::is_power_of_two(self.mask() + 1) {
                lemma_masked_distance(
                    flat(tail_lo, N as int) as usize,
                    w_ptr.flat(N as int) as usize,
                    self.mask(),
                );
            }
        }
        let flat_w: usize = (w_ptr.cl_index * N + w_ptr.cl_offset) & self.cl_mask;
        let flat_r: usize = (r_cl_index * N + r_cl_offset) & self.cl_mask;
        flat_r.wrapping_sub(flat_w) & self.cl_mask
    }

    /// How many slots of line `cl_index` are in use, counted from its first one.
    pub fn occupied_in_cl(&self, cl_index: usize) -> (count: usize)
        requires
            self.wf(),
            cl_index * N <= usize::MAX,
            forall|i: int| 0 <= i < self@.len() ==> (#[trigger] self@[i]).fits(N as int),
        ensures
            count == self.occupied((cl_index * N) as usize, 0),
            count <= N,
    {
        let cl_start: usize = cl_index * N;
        let mut i: usize = 0;
        while i < self.spans.len()
            invariant
                i <= self.spans@.len(),
                self.wf(),
                cl_start == cl_index * N,
                self.occupied(cl_start, i as int) == self.occupied(cl_start, 0),
                forall|j: int| 0 <= j < self@.len() ==> (#[trigger] self@[j]).fits(N as int),
            decreases self.spans@.len() - i,
        {
            let tail_lo = self.spans[i].lo;
            let tail_hi = self.spans[i].hi;
            assert(self@[i as int].fits(N as int));
            let (r_cl_index, r_cl_offset) = Self::unpack(tail_lo);
            let (w_cl_index, w_cl_offset) = Self::unpack(tail_hi);
            proof {
                lemma_flat_parts(tail_lo, N as int);
                lemma_flat_parts(tail_hi, N as int);
            }
            let flat_r: usize = r_cl_index * N + r_cl_offset;
            let flat_w: usize = w_cl_index * N + w_cl_offset;
            let span_len: usize = flat_w.wrapping_sub(flat_r) & self.cl_mask;
            let dist_to_cl: usize = cl_start.wrapping_sub(flat_r) & self.cl_mask;
            if dist_to_cl < span_len {
                let remaining: usize = flat_w.wrapping_sub(cl_start) & self.cl_mask;
                return remaining.min(N);
            }
            i = i + 1;
        }
        0
    }

    /// How many spans there are.
    pub fn spans(&self) -> (count: usize)
        ensures
            count == self@.len(),
    {
        self.spans.len()
    }

    /// How many slots are in use, less one line.
    pub fn len(&self) -> (len: usize)
        requires
            self.wf(),
            forall|i: int| 0 <= i < self@.len() ==> (#[trigger] self@[i]).fits(N as int),
            masked_total(self@, N as int, self.mask()) <= usize::MAX,
        ensures
            len == if masked_total(self@, N as int, self.mask()) >= N {
                masked_total(self@, N as int, self.mask()) - N
            } else {
                0
            },
    {
        let mut len: usize = 0;
        let mut i: usize = 0;
        assert(self@.take(0) =~= Seq::<Span>::empty());
        while i < self.spans.len()
            invariant
                i <= self.spans@.len(),
                forall|j: int| 0 <= j < self@.len() ==> (#[trigger] self@[j]).fits(N as int),
                masked_total(self@, N as int, self.mask()) <= usize::MAX,
                len == masked_total(self@.take(i as int), N as int, self.mask()),
            decreases self.spans@.len() - i,
        {
            assert(self@[i as int].fits(N as int));
            proof {
                assert(self@.take(i + 1).drop_last() =~= self@.take(i as int));
                lemma_total_monotone(self@, i + 1, N as int, self.mask());
            }
            len = len + self.spans[i].len::<N>(self.cl_mask);
            i = i + 1;
        }
        assert(self@.take(i as int) =~= self@);
        len.saturating_sub(N)
    }

    proof fn lemma_occupied_from(&self, start: usize, from: int, i: int)
        requires
            0 <= from <= i <= self@.len(),
            forall|j: int| from <= j < i ==> !self.covers(#[trigger] self@[j], start),
        ensures
            self.occupied(start, from) == self.occupied(start, i),
        decreases i - from,
    {
        if from < i {
            assert(!self.covers(self@[from], start));
            self.lemma_occupied_from(start, from + 1, i);
        }
    }

    /// The first span that covers the first slot of a line, whichever number it
    /// has, tells how many slots of the line are in use: those up to its end, or
    /// the whole line. If no span covers the first slot, none is in use.
    pub proof fn law_occupied(&self, start: usize, i: int)
        requires
            0 <= i <= self@.len(),
            forall|j: int|
                0 <= j < i ==> start.wrapping_sub(flat((#[trigger] self@[j]).lo, N as int) as usize)
                    & self.mask() >= (flat(self@[j].hi, N as int) as usize).wrapping_sub(
                    flat(self@[j].lo, N as int) as usize,
                ) & self.mask(),
            i < self@.len() ==> start.wrapping_sub(flat(self@[i].lo, N as int) as usize)
                & self.mask() < (flat(self@[i].hi, N as int) as usize).wrapping_sub(
                flat(self@[i].lo, N as int) as usize,
            ) & self.mask(),
        ensures
            i == self@.len() ==> self.occupied(start, 0) == 0,
            i < self@.len() ==> {
                let rest = (flat(self@[i].hi, N as int) as usize).wrapping_sub(start) & self.mask();
                self.occupied(start, 0) == if rest < N {
                    rest as int
                } else {
                    N as int
                }
            },
    {
        assert forall|j: int| 0 <= j < i implies !self.covers(#[trigger] self@[j], start) by {}
        self.lemma_occupied_from(start, 0, i);
    }

    /// On a ring of a power of two of slots, `occupied_in_cl` counts the slots of
    /// the line from its first one on that lie in one span: a slot `k` places on
    /// is counted if and only if it lies in the first span that holds the first
    /// slot, with no slot before it left out.
    pub proof fn law_occupied_slots(&self, start: usize, i: int, k: int)
        requires
            self.wf(),
            math::is_power_of_two(self.mask() + 1),
            0 <= i < self@.len(),
            forall|j: int| 0 <= j < self@.len() ==> (#[trigger] self@[j]).fits(N as int),
            forall|j: int|
                0 <= j < i ==> (start - flat((#[trigger] self@[j]).lo, N as int)) % (self.mask()
                    + 1) >= (flat(self@[j].hi, N as int) - flat(self@[j].lo, N as int)) % (
                self.mask() + 1),
            (start - flat(self@[i].lo, N as int)) % (self.mask() + 1) < (flat(
                self@[i].hi,
                N as int,
            ) - flat(self@[i].lo, N as int)) % (self.mask() + 1),
            0 <= k < N,
        ensures
            k < self.occupied(start, 0) <==> (start - flat(self@[i].lo, N as int)) % (self.mask()
                + 1) + k < (flat(self@[i].hi, N as int) - flat(self@[i].lo, N as int)) % (
            self.mask() + 1),
    {
        let n = N as int;
        let size = self.mask() + 1;
        assert forall|j: int| 0 <= j < i implies !self.covers(#[trigger] self@[j], start) by {
            self.law_covers(self@[j], start);
        }
        self.law_covers(self@[i], start);
        self.lemma_occupied_from(start, 0, i);
        let lo = flat(self@[i].lo, n);
        let hi = flat(self@[i].hi, n);
        assert(self@[i].fits(n));
        lemma_flat_parts(self@[i].lo, n);
        lemma_flat_parts(self@[i].hi, n);
        lemma_masked_distance(hi as usize, start, self.mask());
        let a = math::ring_distance(lo, start as int, size);
        let b = math::ring_distance(lo, hi, size);
        assert(math::ring_distance(start as int, hi, size) == b - a) by {
            math::lemma_mod_shift(hi - lo, lo - start, size);
            math::lemma_mod_shift(start - lo, 0, size);
            math::law_ring_distance(lo, start as int, size);
            math::law_ring_distance(lo, hi, size);
            vstd::arithmetic::div_mod::lemma_sub_mod_noop(hi - lo, start - lo, size);
            vstd::arithmetic::div_mod::lemma_small_mod((b - a) as nat, size as nat);
        }
    }

    /// If no span holds the first slot of a line, none of the line is in use.
    pub proof fn law_nothing_occupied(&self, start: usize)
        requires
            self.wf(),
            math::is_power_of_two(self.mask() + 1),
            forall|j: int| 0 <= j < self@.len() ==> (#[trigger] self@[j]).fits(N as int),
            forall|j: int|
                0 <= j < self@.len() ==> (start - flat((#[trigger] self@[j]).lo, N as int)) % (
                self.mask() + 1) >= (flat(self@[j].hi, N as int) - flat(self@[j].lo, N as int)) % (
                self.mask() + 1),
        ensures
            self.occupied(start, 0) == 0,
    {
        let i = self@.len() as int;
        assert forall|j: int| 0 <= j < i implies !self.covers(#[trigger] self@[j], start) by {
            self.law_covers(self@[j], start);
        }
        self.lemma_occupied_from(start, 0, i);
    }

    /// On a ring whose size is a power of two, a span covers a slot if the slot
    /// lies less far from the start of the span than its end does.
    pub proof fn law_covers(&self, span: Span, start: usize)
        requires
            self.wf(),
            math::is_power_of_two(self.mask() + 1),
            span.fits(N as int),
        ensures
            self.covers(span, start) <==> math::ring_distance(
                flat(span.lo, N as int),
                start as int,
                self.mask() + 1,
            ) < span.size(N as int, self.mask() + 1),
    {
        let lo = flat(span.lo, N as int) as usize;
        let hi = flat(span.hi, N as int) as usize;
        lemma_flat_parts(span.lo, N as int);
        lemma_flat_parts(span.hi, N as int);
        lemma_masked_distance(start, lo, self.mask());
        lemma_masked_distance(hi, lo, self.mask());
    }
}

/// Two steps forward that stay within one lap add up.
proof fn lemma_distances_add(a: int, b: int, c: int, size: int)
    requires
        0 < size,
        math::ring_distance(a, b, size) + math::ring_distance(b, c, size) < size,
    ensures
        math::ring_distance(a, c, size) == math::ring_distance(a, b, size) + math::ring_distance(
            b,
            c,
            size,
        ),
{
    let p = math::ring_distance(a, b, size);
    let q = math::ring_distance(b, c, size);
    math::lemma_mod_shift(b - a, c - b, size);
    math::lemma_mod_shift(c - b, p, size);
    vstd::arithmetic::div_mod::lemma_small_mod((p + q) as nat, size as nat);
}

/// When the first span goes away, its slots are taken from the total.
pub proof fn law_first_span_leaves(spans: Seq<Span>, n: int, size: int)
    requires
        spans.len() > 0,
    ensures
        total(spans, n, size) == spans[0].size(n, size) + total(spans.skip(1), n, size),
    decreases spans.len(),
{
    if spans.len() == 1 {
        assert(spans.drop_last() =~= Seq::<Span>::empty());
        assert(spans.skip(1) =~= Seq::<Span>::empty());
    } else {
        law_first_span_leaves(spans.drop_last(), n, size);
        assert(spans.drop_last().skip(1) =~= spans.skip(1).drop_last());
        assert(spans.skip(1).last() == spans.last());
    }
}

/// A span has as many slots as lie from its start to its end, and counts are kept
/// within a lap.
pub proof fn law_span_size(span: Span, n: int, size: int)
    requires
        0 < size,
    ensures
        0 <= span.size(n, size) < size,
        (flat(span.lo, n) + span.size(n, size)) % size == flat(span.hi, n) % size,
        flat(span.lo, n) == (span.lo as int / 256) * n + span.lo as int % 256,
        flat(span.hi, n) == (span.hi as int / 256) * n + span.hi as int % 256,
        span.fits(n) <==> flat(span.lo, n) <= usize::MAX && flat(span.hi, n) <= usize::MAX,
{
    math::law_ring_distance(flat(span.lo, n), flat(span.hi, n), size);
}

/// No spans have no slots, and each span adds what the mask tells of it.
pub proof fn law_masked_total_adds(spans: Seq<Span>, span: Span, n: int, mask: usize)
    ensures
        masked_total(Seq::empty(), n, mask) == 0,
        total(Seq::empty(), n, mask + 1) == 0,
        masked_total(spans.push(span), n, mask) == masked_total(spans, n, mask) + ((flat(
            span.hi,
            n,
        ) as usize & mask).wrapping_sub(flat(span.lo, n) as usize & mask) & mask),
{
    assert(spans.push(span).drop_last() =~= spans);
}

/// Adding a span to others adds its slots to theirs.
pub proof fn law_new_span_adds(spans: Seq<Span>, span: Span, n: int, size: int)
    ensures
        total(spans.push(span), n, size) == total(spans, n, size) + span.size(n, size),
{
    assert(spans.push(span).drop_last() =~= spans);
}

/// Extending the last span adds the slots that it is extended by, unless it grows
/// to a full lap.
pub proof fn law_extension_adds(spans: Seq<Span>, hi: usize, n: int, size: int)
    requires
        spans.len() > 0,
        0 < size,
        spans.last().size(n, size) + math::ring_distance(
            flat(spans.last().hi, n),
            flat(hi, n),
            size,
        ) < size,
    ensures
        total(spans.drop_last().push(Span { hi, ..spans.last() }), n, size) == total(spans, n, size)
            + math::ring_distance(flat(spans.last().hi, n), flat(hi, n), size),
{
    law_new_span_adds(spans.drop_last(), Span { hi, ..spans.last() }, n, size);
    lemma_distances_add(flat(spans.last().lo, n), flat(spans.last().hi, n), flat(hi, n), size);
}

/// Freeing slots at the start of the first span takes them from the total.
pub proof fn law_freeing_subtracts(spans: Seq<Span>, lo: usize, n: int, size: int)
    requires
        spans.len() > 0,
        0 < size,
        math::ring_distance(flat(spans[0].lo, n), flat(lo, n), size) + math::ring_distance(
            flat(lo, n),
            flat(spans[0].hi, n),
            size,
        ) < size,
    ensures
        total(spans.update(0, Span { lo, ..spans[0] }), n, size) == total(spans, n, size)
            - math::ring_distance(flat(spans[0].lo, n), flat(lo, n), size),
{
    let after = spans.update(0, Span { lo, ..spans[0] });
    law_first_span_leaves(spans, n, size);
    law_first_span_leaves(after, n, size);
    assert(after.skip(1) =~= spans.skip(1));
    lemma_distances_add(flat(spans[0].lo, n), flat(lo, n), flat(spans[0].hi, n), size);
}

} // verus!
