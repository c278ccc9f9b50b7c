//! How sending and receiving change the ring.

use crate::buffer::Buffer;
use crate::log;
use crate::math;
use crate::slot_ptr::SlotPtr;
use vstd::prelude::*;

verus! {

/// `after` is `before` with `items` written from slot `start` on, around the
/// ring. The slots behind them may have changed too, up to `room` slots in all.
pub open spec fn written<T>(
    before: Seq<Option<T>>,
    after: Seq<Option<T>>,
    start: int,
    items: Seq<T>,
    room: int,
) -> bool {
    &&& after.len() == before.len()
    &&& forall|j: int|
        #![trigger after[j]]
        0 <= j < before.len() ==> {
            let d = math::ring_distance(start, j, before.len() as int);
            &&& d < items.len() ==> after[j] == Some(items[d])
            &&& d >= room ==> after[j] == before[j]
        }
}

/// Writing one more item.
pub proof fn lemma_written_push<T>(
    before: Seq<Option<T>>,
    after: Seq<Option<T>>,
    start: int,
    items: Seq<T>,
    item: T,
    room: int,
)
    requires
        written(before, after, start, items, room),
        items.len() < room <= before.len(),
    ensures
        written(
            before,
            after.update((start + items.len()) % (before.len() as int), Some(item)),
            start,
            items.push(item),
            room,
        ),
{
    let size = before.len() as int;
    let i = items.len() as int;
    let p = (start + i) % size;
    let next = after.update(p, Some(item));
    math::lemma_ring_distance_of_step(start, i, size);
    assert forall|j: int| #![trigger next[j]] 0 <= j < size implies ({
        let d = math::ring_distance(start, j, size);
        &&& d < items.push(item).len() ==> next[j] == Some(items.push(item)[d])
        &&& d >= room ==> next[j] == before[j]
    }) by {
        math::lemma_step_of_ring_distance(start, j, size);
        if math::ring_distance(start, j, size) == i {
            assert(j == p);
        } else {
            assert(j != p);
            assert(next[j] == after[j]);
        }
    }
}

/// Whether every slot holds a message.
pub open spec fn filled<T>(slots: Seq<Option<T>>) -> bool {
    forall|i: int| 0 <= i < slots.len() ==> (#[trigger] slots[i]) is Some
}

/// The messages in slots that all hold one.
pub open spec fn contents<T>(slots: Seq<Option<T>>) -> Seq<T> {
    Seq::new(slots.len(), |i: int| slots[i]->0)
}

/// Slots are filled if each of them holds a message, and their contents are those
/// messages in order.
pub proof fn law_contents<T>(slots: Seq<Option<T>>)
    ensures
        filled(slots) <==> forall|i: int| 0 <= i < slots.len() ==> (#[trigger] slots[i]) is Some,
        contents(slots).len() == slots.len(),
        filled(slots) ==> forall|i: int|
            0 <= i < slots.len() ==> slots[i] == Some(#[trigger] contents(slots)[i]),
{
}

/// Filling the part up to the end of the ring and the part from its start.
pub proof fn lemma_written_parts<T>(
    before: Seq<Option<T>>,
    after: Seq<Option<T>>,
    start: int,
    first: Seq<Option<T>>,
    second: Seq<Option<T>>,
)
    requires
        0 <= start <= before.len(),
        first.len() + second.len() <= before.len(),
        start + first.len() <= before.len(),
        second.len() > 0 ==> start + first.len() == before.len(),
        filled(first),
        filled(second),
        after == second + before.subrange(second.len() as int, start) + first + before.subrange(
            start + first.len(),
            before.len() as int,
        ),
    ensures
        written(
            before,
            after,
            start,
            contents(first) + contents(second),
            (first.len() + second.len()) as int,
        ),
{
    let size = before.len() as int;
    let items = contents(first) + contents(second);
    assert forall|j: int| #![trigger after[j]] 0 <= j < size implies ({
        let d = math::ring_distance(start, j, size);
        &&& d < items.len() ==> after[j] == Some(items[d])
        &&& d >= items.len() ==> after[j] == before[j]
    }) by {
        let d = if j < start {
            j - start + size
        } else {
            j - start
        };
        if j < start {
            vstd::arithmetic::div_mod::lemma_fundamental_div_mod_converse(j - start, size, -1, d);
        } else {
            vstd::arithmetic::div_mod::lemma_small_mod(d as nat, size as nat);
        }
        assert(math::ring_distance(start, j, size) == d);
        if d < first.len() {
            assert(first[d] is Some);
        } else if d < items.len() {
            assert(second[d - first.len()] is Some);
        }
    }
}

/// Slots that stay as they are outside of a smaller part of the ring also stay
/// as they are outside of a larger one.
pub proof fn lemma_written_within<T>(
    before: Seq<Option<T>>,
    after: Seq<Option<T>>,
    start: int,
    items: Seq<T>,
    room: int,
    more_room: int,
)
    requires
        written(before, after, start, items, room),
        room <= more_room,
    ensures
        written(before, after, start, items, more_room),
{
}

/// Writing nothing.
pub proof fn lemma_written_nothing<T>(slots: Seq<Option<T>>, start: int)
    ensures
        forall|room: int| written(slots, slots, start, Seq::<T>::empty(), room),
{
    assert forall|j: int| 0 <= j < slots.len() implies 0 <= #[trigger] math::ring_distance(
        start,
        j,
        slots.len() as int,
    ) by {
        math::lemma_step_of_ring_distance(start, j, slots.len() as int);
    }
}

/// Writing the first item.
pub proof fn lemma_written_first<T>(before: Seq<Option<T>>, start: int, item: T)
    requires
        0 < before.len(),
    ensures
        written(
            before,
            before.update(start % (before.len() as int), Some(item)),
            start,
            seq![item],
            1,
        ),
{
    lemma_written_nothing(before, start);
    lemma_written_push(before, before, start, Seq::<T>::empty(), item, 1);
    assert(Seq::<T>::empty().push(item) =~= seq![item]);
}

/// Writing items, and nothing else, leaves no choice about any slot.
pub proof fn lemma_written_once<T>(
    before: Seq<Option<T>>,
    one: Seq<Option<T>>,
    other: Seq<Option<T>>,
    start: int,
    items: Seq<T>,
)
    requires
        written(before, one, start, items, items.len() as int),
        written(before, other, start, items, items.len() as int),
    ensures
        one == other,
{
    assert forall|j: int| 0 <= j < before.len() implies one[j] == other[j] by {
        let d = math::ring_distance(start, j, before.len() as int);
        assert(d < items.len() ==> one[j] == Some(items[d]));
    }
    assert(one =~= other);
}

/// Writing items and then more items behind them is writing all of them.
pub proof fn lemma_written_in_turn<T>(
    before: Seq<Option<T>>,
    middle: Seq<Option<T>>,
    after: Seq<Option<T>>,
    start: int,
    next: int,
    first: Seq<T>,
    second: Seq<T>,
)
    requires
        written(before, middle, start, first, first.len() as int),
        written(middle, after, next, second, second.len() as int),
        0 < before.len(),
        next % (before.len() as int) == (start + first.len()) % (before.len() as int),
        first.len() + second.len() <= before.len(),
    ensures
        written(
            before,
            after,
            start,
            first + second,
            (first.len() + second.len()) as int,
        ),
{
    let size = before.len() as int;
    let a = first.len() as int;
    let items = first + second;
    assert forall|j: int| #![trigger after[j]] 0 <= j < size implies ({
        let d = math::ring_distance(start, j, size);
        &&& d < items.len() ==> after[j] == Some(items[d])
        &&& d >= items.len() ==> after[j] == before[j]
    }) by {
        let d = math::ring_distance(start, j, size);
        let e = math::ring_distance(next, j, size);
        math::lemma_step_of_ring_distance(start, j, size);
        math::lemma_step_of_ring_distance(next, j, size);
        assert(e == (d - a) % size) by {
            math::lemma_ring_distance_wraps(next, j, size);
            math::lemma_ring_distance_wraps(start + a, j, size);
            math::lemma_mod_shift(j - start, -a, size);
        }
        if d >= a {
            vstd::arithmetic::div_mod::lemma_small_mod((d - a) as nat, size as nat);
        } else {
            vstd::arithmetic::div_mod::lemma_fundamental_div_mod_converse(
                d - a,
                size,
                -1,
                d - a + size,
            );
        }
        assert(middle[j] == if d < a {
            Some(first[d])
        } else {
            before[j]
        });
    }
}

impl<T, const N: usize> Buffer<T, N> {
    /// Nothing but what the producer writes differs from `before`.
    pub open spec fn sent_into(&self, before: &Self) -> bool {
        &&& self.tail == before.tail
        &&& self.interruptions == before.interruptions
        &&& self.cl_mask == before.cl_mask
        &&& self.capacity == before.capacity
        &&& self.progress == before.progress
    }

    /// Whether two rings hold the same in every place.
    pub open spec fn same_as(&self, other: &Self) -> bool {
        &&& self.head == other.head
        &&& self.tail == other.tail
        &&& self.slots@ == other.slots@
        &&& self.interruptions@ == other.interruptions@
        &&& self.cl_mask == other.cl_mask
        &&& self.capacity == other.capacity
        &&& self.log@ == other.log@
    }

    /// `head` and `tail` are lines of the ring.
    pub proof fn lemma_head_and_tail(&self)
        requires
            self.wf(),
        ensures
            self.head <= self.cl_mask,
            self.tail <= self.cl_mask,
            self.pending().len() <= N,
            self.lines() <= usize::MAX,
    {
        self.log@.lemma_starts_ordered(0, self.log@.write_line(), N as int);
        self.lemma_line_mask(0);
    }

    /// The queue is full when the producer's line is and no other one is free.
    pub proof fn lemma_free(&self)
        requires
            self.wf(),
        ensures
            0 <= self.free() <= self.capacity,
            self.free() == 0 <==> self.pending().len() == N && self.spare_lines() == 0,
            self.lines() > 1 ==> self.free() <= self.capacity - N,
    {
        self.lemma_head_and_tail();
        self.lemma_spare_lines();
        let spare = self.spare_lines();
        let c = self.lines();
        let o = self.pending().len() as int;
        assert(0 <= spare * N && (spare == 0 <==> spare * N == 0)) by (nonlinear_arith)
            requires
                0 <= spare,
                0 < N,
        ;
        assert(c > 1 ==> spare * N + (N - o) <= c * N - N) by (nonlinear_arith)
            requires
                c > 1 ==> spare <= c - 2,
                0 <= o,
                0 < N,
        ;
        assert(c == 1 ==> spare * N + (N - o) <= c * N) by (nonlinear_arith)
            requires
                c == 1 ==> spare <= 0,
                0 <= o,
                0 < N,
        ;
    }

    /// Slot `offset` of line `line` lies on the ring.
    pub proof fn lemma_slot_bound(&self, line: usize, offset: usize)
        requires
            self.laid_out(),
            line <= self.cl_mask,
            offset < N,
        ensures
            0 <= line * N <= line * N + offset < self.capacity,
            (line * N + offset) % (self.capacity as int) == line * N + offset,
    {
        let c = self.lines();
        assert(0 <= line * N && line * N + offset < c * N) by (nonlinear_arith)
            requires
                0 <= line <= c - 1,
                0 <= offset < N,
        ;
        vstd::arithmetic::div_mod::lemma_small_mod(
            (line * N + offset) as nat,
            self.capacity as nat,
        );
    }

    /// The end of the producer's line is the start of the next one.
    pub proof fn lemma_next_line_start(&self)
        requires
            self.laid_out(),
            self.head <= self.cl_mask,
        ensures
            (self.head * N + N) % (self.capacity as int) == ((self.head + 1) % self.lines()) * N,
    {
        let c = self.lines();
        let n = N as int;
        vstd::arithmetic::div_mod::lemma_small_mod(self.head as nat, c as nat);
        math::lemma_walk(self.head as int, n, c, n);
        vstd::arithmetic::div_mod::lemma_div_by_self(n);
        vstd::arithmetic::div_mod::lemma_mod_self_0(n);
    }

    /// One message stays in the producer's line, or opens the next one.
    pub proof fn lemma_send_one(&self, item: T)
        requires
            self.wf(),
        ensures
            ({
                let after = self.log@.send(seq![item], N as int);
                if self.pending().len() < N {
                    &&& after.write_line() == self.log@.write_line()
                    &&& after.pending().len() == self.pending().len() + 1
                } else {
                    &&& after.write_line() == self.log@.write_line() + 1
                    &&& after.pending().len() == 1
                }
            }),
            (self.head + 1) % self.lines() == (self.log@.write_line() + 1) % self.lines(),
    {
        let n = N as int;
        self.lemma_head_and_tail();
        math::lemma_mod_shift(self.log@.write_line(), 1, self.lines());
        if self.pending().len() < N {
            self.log@.law_send_within_line(seq![item], n);
        } else {
            self.log@.law_send_past_full_line(item, n);
            vstd::arithmetic::div_mod::lemma_div_by_self(n);
        }
    }

    /// Where the producer stands.
    pub open spec fn write_ptr(&self) -> SlotPtr {
        SlotPtr { cl_index: self.head, cl_offset: self.pending().len() as usize }
    }

    /// The ring has room for a line.
    pub proof fn lemma_capacity(&self)
        requires
            self.laid_out(),
        ensures
            N <= self.capacity,
            self.lines() == 1 <==> self.capacity == N,
    {
        let c = self.lines();
        assert(N <= c * N && (c == 1 <==> c * N == N)) by (nonlinear_arith)
            requires
                1 <= c,
                0 < N,
        ;
    }

    /// Moving the write position on past the messages that were sent takes it to
    /// the end of what is pending afterwards.
    pub proof fn lemma_write_ptr_advanced(&self, items: Seq<T>)
        requires
            self.wf(),
            0 < items.len() <= self.free(),
        ensures
            ({
                let to = self.advanced(self.write_ptr(), items.len() as int);
                let after = self.log@.send(items, N as int);
                &&& to.cl_index == after.write_line() % self.lines()
                &&& to.cl_offset == after.pending().len()
            }),
    {
        let n = N as int;
        let c = self.lines();
        let w = self.log@.write_line();
        let p = w % c;
        self.log@.lemma_starts_ordered(0, w, n);
        let o = self.pending().len() as int;
        let total = o + items.len();
        let left = log::lines_left(total, n);
        self.log@.law_send(items, n);
        let to = self.write_ptr().flat(n) + items.len();
        assert(to == p * n + total);
        vstd::arithmetic::div_mod::lemma_fundamental_div_mod(total, n);
        let q = total / n;
        let k = total % n;
        assert(p * n + total == (p + q) * n + k) by (nonlinear_arith)
            requires
                total == n * q + k,
        ;
        math::lemma_line_and_offset(p + q, k, n);
        math::lemma_mod_shift(w, q, c);
        math::lemma_mod_shift(w, q - 1, c);
        if k == 0 {
            assert(q >= 1) by (nonlinear_arith)
                requires
                    total == n * q,
                    total > 0,
                    n > 0,
            ;
            assert(total - 1 == (q - 1) * n + (n - 1)) by (nonlinear_arith)
                requires
                    total == n * q,
            ;
            math::lemma_line_and_offset(q - 1, n - 1, n);
            assert(left == q - 1) by {
                if total <= n {
                    assert(q == 1) by (nonlinear_arith)
                        requires
                            total == n * q,
                            0 < total <= n,
                    ;
                }
            }
            assert(total - (q - 1) * n == n) by (nonlinear_arith)
                requires
                    total == n * q,
            ;
        } else {
            assert(total - 1 == q * n + (k - 1)) by (nonlinear_arith)
                requires
                    total == n * q + k,
            ;
            math::lemma_line_and_offset(q, k - 1, n);
            assert(left == q) by {
                if total <= n {
                    assert(q == 0) by (nonlinear_arith)
                        requires
                            total == n * q + k,
                            0 < k < n,
                            0 < total <= n,
                    ;
                }
            }
            assert(total - q * n == k) by (nonlinear_arith)
                requires
                    total == n * q + k,
            ;
        }
        assert(to > 0) by (nonlinear_arith)
            requires
                to == p * n + total,
                0 <= p,
                0 < n,
                0 < total,
        ;
    }

    /// Where a pointer gets to, as a slot number on the ring.
    pub proof fn lemma_advanced_flat(&self, ptr: SlotPtr, by: int)
        requires
            self.laid_out(),
            self.on_ring(ptr),
            0 <= by,
        ensures
            self.advanced(ptr, by).flat(N as int) % (self.capacity as int) == (ptr.flat(N as int)
                + by) % (self.capacity as int),
    {
        let n = N as int;
        let c = self.lines();
        let to = ptr.flat(n) + by;
        let q = to / n;
        let k = to % n;
        self.lemma_flat_bound(ptr);
        self.lemma_line_mask(0);
        vstd::arithmetic::div_mod::lemma_small_mod(0, c as nat);
        math::lemma_walk(0, to, c, n);
        assert((0int % c) * n == 0) by (nonlinear_arith)
            requires
                0int % c == 0,
        ;
        if k == 0 && to > 0 {
            math::lemma_walk(q - 1, n, c, n);
            vstd::arithmetic::div_mod::lemma_div_by_self(n);
            vstd::arithmetic::div_mod::lemma_mod_self_0(n);
        } else {
            math::lemma_slot_index_bound(q, k, c, n);
            vstd::arithmetic::div_mod::lemma_small_mod(
                math::slot_index(q, k, c, n) as nat,
                (c * n) as nat,
            );
        }
    }

    /// Sending nothing changes nothing.
    pub proof fn lemma_send_nothing(&self, items: Seq<T>)
        requires
            self.wf(),
            items.len() == 0,
        ensures
            self.log@.send(items, N as int) == self.log@,
    {
        let after = self.log@.send(items, N as int);
        self.lemma_head_and_tail();
        assert(after.messages =~= self.log@.messages);
        assert(after.starts =~= self.log@.starts);
    }

    /// Writing `items` behind what is pending and moving `head` on accordingly
    /// sends them, if there is room.
    pub proof fn lemma_send(before: &Self, after: &Self, items: Seq<T>)
        requires
            before.wf(),
            items.len() <= before.free(),
            written(
                before.slots@,
                after.slots@,
                before.head * N + before.pending().len(),
                items,
                before.free(),
            ),
            after.log@ == before.log@.send(items, N as int),
            after.head == after.log@.write_line() % before.lines(),
            after.tail == before.tail,
            after.interruptions@ == before.interruptions@,
            after.cl_mask == before.cl_mask,
            after.capacity == before.capacity,
            after.progress == before.progress,
        ensures
            after.wf(),
            after.free() == before.free() - items.len(),
    {
        let n = N as int;
        let c = before.lines();
        let log = before.log@;
        let w = log.write_line();
        let t = before.progress@.tail_line;
        let o = before.pending().len() as int;
        let total = o + items.len();
        let left = log::lines_left(total, n);
        log.lemma_starts_ordered(0, w, n);
        log.law_send(items, n);
        before.lemma_spare_lines();
        let spare = before.spare_lines();
        assert(0 <= left <= spare && left * n <= total) by {
            Self::lemma_lines_left_bound(total, spare, n);
        }
        assert(after.log@.write_line() == w + left);
        assert(after.counters_wf());
        after.lemma_spare_lines();
        assert((spare - left) * n + (n - (total - left * n)) == spare * n + n - total)
            by (nonlinear_arith);
        assert forall|l: int| 0 <= l < w implies #[trigger] after.log@.fill(l) == log.fill(l)
            && after.log@.end(l) == log.end(l) by {}
        assert forall|l: int| w <= l < w + left implies #[trigger] after.log@.fill(l) == n by {
            let last = log.starts[w];
            assert(after.log@.starts[l + 1] == last + (l - w + 1) * n);
            if l > w {
                assert(after.log@.starts[l] == last + (l - w - 1 + 1) * n);
            }
            assert((l - w + 1) * n - (l - w) * n == n) by (nonlinear_arith);
            assert(l == w ==> (l - w) * n == 0) by (nonlinear_arith);
        }
        assert(after.reader_wf());
        assert(after.breaks_wf()) by {
            assert forall|i: int| 0 <= i < before.progress@.breaks.len() implies (
            #[trigger] after.interruptions@[i]) == after.end_of(before.progress@.breaks[i]) by {
                assert(before.interruptions@[i] == before.end_of(before.progress@.breaks[i]));
            }
        }
        assert(after.slots_wf()) by {
            assert forall|l: int, k: int|
                #![trigger math::slot_index(l, k, after.lines(), n)]
                0 <= l && after.progress@.read_line <= l <= w + left && 0 <= k < after.log@.fill(l)
                    && after.log@.read <= after.log@.starts[l] + k implies after.slots@[math::slot_index(
                l,
                k,
                after.lines(),
                n,
            )] == Some(after.log@.messages[after.log@.starts[l] + k]) by {
                Self::lemma_sent_slot(before, after, items, l, k);
            }
        }
    }

    proof fn lemma_lines_left_bound(total: int, spare: int, n: int)
        requires
            0 < n,
            0 <= total <= spare * n + n,
            0 <= spare,
        ensures
            0 <= log::lines_left(total, n) <= spare,
            log::lines_left(total, n) * n <= total,
    {
        let left = log::lines_left(total, n);
        if total > n {
            vstd::arithmetic::div_mod::lemma_fundamental_div_mod(total - 1, n);
            assert(0 <= left <= spare && left * n <= total) by (nonlinear_arith)
                requires
                    0 < n < total <= spare * n + n,
                    total - 1 == n * left + (total - 1) % n,
                    0 <= (total - 1) % n < n,
            ;
        } else {
            assert(left * n == 0) by (nonlinear_arith)
                requires
                    left == 0,
            ;
        }
    }

    proof fn lemma_sent_slot(before: &Self, after: &Self, items: Seq<T>, l: int, k: int)
        requires
            before.wf(),
            items.len() <= before.free(),
            written(
                before.slots@,
                after.slots@,
                before.head * N + before.pending().len(),
                items,
                before.free(),
            ),
            after.log@ == before.log@.send(items, N as int),
            after.log@.wf(N as int),
            0 <= l,
            before.progress@.read_line <= l <= after.log@.write_line(),
            0 <= k < after.log@.fill(l),
            after.log@.read <= after.log@.starts[l] + k,
            after.log@.fill(l) <= N,
            after.log@.write_line() - before.progress@.tail_line <= before.gap_limit(),
            before.lines() == 1 ==> after.log@.write_line() == 0,
        ensures
            after.slots@[math::slot_index(l, k, before.lines(), N as int)] == Some(
                after.log@.messages[after.log@.starts[l] + k],
            ),
    {
        let n = N as int;
        let c = before.lines();
        let log = before.log@;
        let w = log.write_line();
        let t = before.progress@.tail_line;
        let o = before.pending().len() as int;
        let cap = before.capacity as int;
        let j = math::slot_index(l, k, c, n);
        let start = before.head * n + o;
        let m = after.log@.starts[l] + k;
        let count = items.len() as int;
        log.lemma_starts_ordered(0, w, n);
        after.log@.lemma_starts_ordered(l, after.log@.write_line(), n);
        before.lemma_spare_lines();
        math::lemma_slot_index_bound(l, k, c, n);
        math::lemma_slot_distance(l, k, w, o, c, n);
        let d = (l * n + k) - (w * n + o);
        assert(math::ring_distance(start, j, cap) == d % cap);
        assert(after.log@.messages.len() == log.messages.len() + count);
        let spare = before.spare_lines();
        if l < w || (l == w && k < o) {
            // A message from before: the new ones end before they come around to it.
            assert(after.log@.starts[l] == log.starts[l]);
            if l < w {
                assert(after.log@.fill(l) == log.fill(l));
                assert(after.log@.starts[l + 1] == log.starts[l + 1]);
                log.lemma_starts_ordered(l + 1, w, n);
            }
            assert(m < log.messages.len());
            let room = before.free();
            assert(room <= d + cap < cap) by (nonlinear_arith)
                requires
                    d == (l * n + k) - (w * n + o),
                    cap == c * n,
                    room == spare * n + (n - o),
                    spare == (if c == 1 { 1 } else { c - 1 }) - (w - t),
                    c == 1 ==> l == 0 && w == 0,
                    c >= 1,
                    t <= l,
                    t < w,
                    0 <= k < n,
                    0 <= o <= n,
                    l < w || (l == w && k < o),
                    c == 1 ==> spare == 0,
            ;
            vstd::arithmetic::div_mod::lemma_mod_add_multiples_vanish(d, cap);
            vstd::arithmetic::div_mod::lemma_small_mod((d + cap) as nat, cap as nat);
            assert(d % cap == d + cap);
            assert(before.slots@[j] == Some(log.messages[log.starts[l] + k]));
        } else {
            // One of the new messages.
            let last = log.starts[w];
            assert(after.log@.starts[l] == last + (l - w) * n) by {
                if l > w {
                    assert(after.log@.starts[l] == last + (l - w - 1 + 1) * n);
                } else {
                    assert((l - w) * n == 0) by (nonlinear_arith)
                        requires
                            l == w,
                    ;
                }
            }
            assert(d == (l - w) * n + k - o) by (nonlinear_arith)
                requires
                    d == (l * n + k) - (w * n + o),
            ;
            assert(m - log.messages.len() == d);
            assert(0 <= d) by (nonlinear_arith)
                requires
                    d == (l - w) * n + k - o,
                    l > w || (l == w && k >= o),
                    0 <= o <= n,
                    0 <= k,
                    0 < n,
            ;
            if l < after.log@.write_line() {
                after.log@.lemma_starts_ordered(l + 1, after.log@.write_line(), n);
            }
            assert(d < count);
            assert(count <= cap) by (nonlinear_arith)
                requires
                    cap == c * n,
                    count <= spare * n + (n - o),
                    spare <= c - 1,
                    0 <= o,
                    0 < n,
            ;
            vstd::arithmetic::div_mod::lemma_small_mod(d as nat, cap as nat);
        }
    }

    /// A line is free if and only if `tail` is not the line after `head`.
    pub proof fn lemma_spare_line(&self)
        requires
            self.laid_out(),
            self.head <= self.cl_mask,
            self.tail <= self.cl_mask,
        ensures
            self.spare_lines() == 0 <==> (self.head + 1) % self.lines() == self.tail,
    {
        let c = self.lines();
        let next = (self.head + 1) % c;
        vstd::arithmetic::div_mod::lemma_sub_mod_noop(self.tail as int, self.head + 1, c);
        vstd::arithmetic::div_mod::lemma_small_mod(self.tail as nat, c as nat);
        if self.spare_lines() == 0 {
            vstd::arithmetic::div_mod::lemma_fundamental_div_mod(self.tail - next, c);
            assert(self.tail == next) by (nonlinear_arith)
                requires
                    self.tail - next == c * ((self.tail - next) / c),
                    -c < self.tail - next < c,
                    0 < c,
            ;
        } else if self.tail == next {
            vstd::arithmetic::div_mod::lemma_small_mod(0, c as nat);
        }
    }

    /// Releasing the producer's line and moving `head` on flushes it, if there
    /// is a free line to move to.
    pub proof fn lemma_flush(before: &Self, after: &Self)
        requires
            before.wf(),
            before.pending().len() > 0,
            before.spare_lines() > 0,
            after.log@ == before.log@.flush(),
            after.head == (before.log@.write_line() + 1) % before.lines(),
            after.slots@ == before.slots@,
            after.tail == before.tail,
            after.cl_mask == before.cl_mask,
            after.capacity == before.capacity,
            before.pending().len() == N ==> {
                &&& after.progress == before.progress
                &&& after.interruptions@ == before.interruptions@
            },
            before.pending().len() < N ==> {
                &&& after.progress@ == (crate::buffer::Progress {
                    breaks: before.progress@.breaks.push(before.log@.write_line()),
                    ..before.progress@
                })
                &&& after.interruptions@ == before.interruptions@.push(before.write_ptr())
            },
        ensures
            after.wf(),
            after.free() == before.free() - (N - before.pending().len()),
    {
        let n = N as int;
        let c = before.lines();
        let log = before.log@;
        let w = log.write_line();
        log.lemma_starts_ordered(0, w, n);
        log.law_flush(n);
        before.lemma_spare_lines();
        let spare = before.spare_lines();
        assert(after.counters_wf());
        after.lemma_spare_lines();
        assert((spare - 1) * n + n == spare * n) by (nonlinear_arith);
        assert forall|l: int| 0 <= l <= w implies #[trigger] after.log@.fill(l) == log.fill(l)
            && after.log@.end(l) == log.end(l) by {}
        assert(after.reader_wf());
        assert(after.breaks_wf()) by {
            let old_breaks = before.progress@.breaks;
            let breaks = after.progress@.breaks;
            assert forall|l: int|
                after.progress@.seen <= l < w + 1 && #[trigger] after.log@.fill(l) < N implies breaks.contains(
            l) by {
                if l < w {
                    assert(log.fill(l) < N);
                    assert(old_breaks.contains(l));
                    let i = old_breaks.index_of(l);
                    assert(breaks[i] == l);
                } else {
                    assert(breaks[old_breaks.len() as int] == w);
                }
            }
            assert forall|i: int| 0 <= i < breaks.len() implies (#[trigger] after.interruptions@[i])
                == after.end_of(breaks[i]) by {
                if i < old_breaks.len() {
                    assert(before.interruptions@[i] == before.end_of(old_breaks[i]));
                    assert(breaks[i] == old_breaks[i]);
                }
            }
            assert forall|i: int| 0 <= i < breaks.len() implies after.progress@.seen
                <= #[trigger] breaks[i] < w + 1 && after.log@.fill(breaks[i]) < N by {
                if i < old_breaks.len() {
                    assert(breaks[i] == old_breaks[i]);
                }
            }
            assert forall|i: int, j: int| 0 <= i < j < breaks.len() implies breaks[i]
                < breaks[j] by {
                assert(breaks[i] == old_breaks[i]);
                if j < old_breaks.len() {
                    assert(breaks[j] == old_breaks[j]);
                }
            }
        }
        assert(after.slots_wf()) by {
            assert forall|l: int, k: int|
                #![trigger math::slot_index(l, k, after.lines(), n)]
                0 <= l && after.progress@.read_line <= l <= w + 1 && 0 <= k < after.log@.fill(l)
                    && after.log@.read <= after.log@.starts[l] + k implies after.slots@[math::slot_index(
                l,
                k,
                after.lines(),
                n,
            )] == Some(after.log@.messages[after.log@.starts[l] + k]) by {
                assert(l <= w);
                assert(after.log@.starts[l] == log.starts[l]);
                assert(before.slots@[math::slot_index(l, k, before.lines(), n)] == Some(
                    log.messages[log.starts[l] + k],
                ));
            }
        }
    }

    /// Producer and consumer never share a cache line: no line that the producer
    /// owns or may go on to is one that the consumer is in or may still read.
    pub proof fn law_lines_are_exclusive(&self, theirs: int, ours: int)
        requires
            self.wf(),
            0 <= theirs,
            self.progress@.tail_line <= theirs < self.log@.write_line(),
            self.log@.write_line() <= ours <= self.log@.write_line() + self.spare_lines(),
        ensures
            theirs % self.lines() != ours % self.lines(),
    {
        self.lemma_spare_lines();
        if theirs % self.lines() == ours % self.lines() {
            math::lemma_same_remainder(ours, theirs, self.lines());
        }
    }

    /// Every slot is free, holds a pending message, or belongs to a line from the
    /// one that `tail` stands for to the last one that was released.
    pub proof fn law_room(&self)
        requires
            self.wf(),
        ensures
            self.lines() > 1 ==> self.free() + self.pending().len() + (self.log@.starts.len() - 1
                - self.progress@.tail_line) * N == self.capacity,
            self.lines() == 1 ==> self.free() + self.pending().len() == N,
            self.free() + self.pending().len() == self.spare_lines() * N + N,
            -1 <= self.progress@.tail_line <= self.progress@.read_line < self.log@.starts.len() - 1
                || self.log@.starts.len() == 1 && self.progress@.tail_line == -1,
    {
        let c = self.lines();
        let w = self.log@.write_line();
        let t = self.progress@.tail_line;
        let spare = self.spare_lines();
        self.lemma_spare_lines();
        assert(c > 1 ==> spare * N + N + (w - t) * N == c * N) by (nonlinear_arith)
            requires
                c > 1 ==> spare == c - 1 - (w - t),
        ;
        assert(c == 1 ==> spare * N == 0) by (nonlinear_arith)
            requires
                c == 1 ==> spare == 0,
        ;
    }

    /// A pointer that is moved on gets as many slots further, around the ring. It
    /// stays at the end of a line that it has used up: only the very first slot
    /// is written as the start of a line.
    pub proof fn law_advanced(&self, ptr: SlotPtr, by: int)
        requires
            self.laid_out(),
            self.on_ring(ptr),
            0 <= by,
        ensures
            ({
                let to = self.advanced(ptr, by);
                &&& to.cl_index <= self.cl_mask
                &&& to.cl_offset <= N
                &&& (to.cl_index * N + to.cl_offset) % (self.capacity as int) == (ptr.cl_index * N
                    + ptr.cl_offset + by) % (self.capacity as int)
                &&& to.cl_offset == 0 <==> ptr.cl_index * N + ptr.cl_offset + by == 0
            }),
    {
        let n = N as int;
        let to = ptr.flat(n) + by;
        self.lemma_flat_bound(ptr);
        self.lemma_line_mask(0);
        self.lemma_advanced_flat(ptr, by);
        if to == 0 {
            vstd::arithmetic::div_mod::lemma_small_mod(0, n as nat);
        }
    }

    /// The slots from a pointer on come in two parts: the first one ends at the end
    /// of the ring if there is a second one.
    pub proof fn law_unwrapped(&self, from: SlotPtr, len: int)
        requires
            self.laid_out(),
            self.on_ring(from),
            0 <= len <= self.capacity,
        ensures
            0 <= self.unwrapped(from, len) <= len,
            from.cl_index * N + from.cl_offset + self.unwrapped(from, len) <= self.capacity,
            self.unwrapped(from, len) < len ==> from.cl_index * N + from.cl_offset
                + self.unwrapped(from, len) == self.capacity,
    {
        self.lemma_flat_bound(from);
    }

    /// A ring of a power of two of lines and of slots is laid out.
    pub proof fn law_laid_out(&self, k: nat, m: nat)
        requires
            0 < N,
            vstd::arithmetic::power2::pow2(k) == self.cl_mask + 1,
            vstd::arithmetic::power2::pow2(m) == self.capacity,
            self.capacity == (self.cl_mask + 1) * N,
            self.slots@.len() == self.capacity,
        ensures
            self.laid_out(),
            forall|ptr: SlotPtr| #[trigger]
                self.on_ring(ptr) <==> ptr.cl_index <= self.cl_mask && ptr.cl_offset <= N,
    {
    }

    /// Of more lines than one, one is never available.
    pub proof fn law_one_line_is_kept_back(&self)
        requires
            self.wf(),
            self.lines() > 1,
        ensures
            self.pending().len() + self.free() <= self.capacity - N,
    {
        let spare = self.spare_lines();
        let c = self.lines();
        self.lemma_spare_lines();
        assert(spare * N + N <= c * N - N) by (nonlinear_arith)
            requires
                spare <= c - 2,
        ;
    }

    /// The messages in the queue and the room that is left never exceed the
    /// capacity.
    pub proof fn law_held_messages_fit(&self)
        requires
            self.wf(),
        ensures
            self.published().len() + self.pending().len() + self.free() <= self.capacity,
    {
        let n = N as int;
        let c = self.lines();
        let log = self.log@;
        let w = log.write_line();
        let t = self.progress@.tail_line;
        let line = self.progress@.read_line;
        self.lemma_spare_lines();
        log.lemma_starts_ordered(0, w, n);
        let gap = w - t;
        let spare = self.spare_lines();
        let held = self.published().len() as int;
        let from = if line < 0 {
            0
        } else {
            line
        };
        log.lemma_lines_hold(from, w, n);
        assert(held <= (w - from) * n) by {
            if line >= 0 {
                assert(1 <= log.fill(line) <= n);
            }
        }
        assert(held + (spare * n + n) <= c * n) by (nonlinear_arith)
            requires
                held <= (w - from) * n,
                c > 1 ==> spare == c - 1 - (w - t),
                c == 1 ==> spare == 1 - (w - t) && w == 0 && from == 0 && t == -1,
                c >= 1,
                t <= from,
                n > 0,
        ;
    }
}

} // verus!
