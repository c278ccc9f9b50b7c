//! What the consumer may read, and how reading changes the ring.

use crate::buffer::Buffer;
use crate::buffer::Progress;
use crate::log::Log;
use crate::math;
use crate::slot_ptr::SlotPtr;
use vstd::prelude::*;

verus! {

/// Where a reader comes to stand that was `offset` slots into `line` and has
/// left `count` more slots behind: at the end of the last one. If that is none,
/// the start of a line turns into the end of the line before, except at the
/// start of the ring.
pub open spec fn moved_on(line: int, offset: int, count: int, lines: int, n: int) -> (int, int) {
    if offset == 0 && count == 0 {
        if line % lines == 0 {
            (line, 0)
        } else {
            (line - 1, n)
        }
    } else {
        let full = (offset + count - 1) / n;
        (line + full, offset + count - full * n)
    }
}

impl<T, const N: usize> Buffer<T, N> {
    /// Where the consumer stands.
    pub open spec fn read_ptr(&self) -> SlotPtr {
        SlotPtr {
            cl_index: (self.progress@.read_line % self.lines()) as usize,
            cl_offset: self.progress@.read_offset as usize,
        }
    }

    /// How many messages line `l` holds, where the line before the first one
    /// counts as full.
    pub open spec fn fill_of(&self, l: int) -> int {
        if l < 0 {
            N as int
        } else {
            self.log@.fill(l)
        }
    }

    /// How many messages the consumer knows to be readable.
    pub open spec fn reach(&self) -> int {
        let last = self.progress@.seen - 1;
        (last - self.progress@.read_line) * N + self.fill_of(last) - self.progress@.read_offset
    }

    /// Whether the consumer knows as much as it can without going past a
    /// part-filled line.
    pub open spec fn extended(&self) -> bool {
        ||| self.progress@.seen == self.log@.write_line()
        ||| self.fill_of(self.progress@.seen - 1) < N
    }

    /// Whether the consumer has read a part-filled line to its end.
    pub open spec fn at_break(&self) -> bool {
        let line = self.progress@.read_line;
        &&& line >= 0
        &&& self.progress@.read_offset < N
        &&& self.progress@.read_offset == self.log@.fill(line)
    }

    /// Where the consumer goes on reading: behind a part-filled line that it has
    /// read to the end it goes on with the next line, once that is released.
    pub open spec fn resume_ptr(&self) -> SlotPtr {
        if self.at_break() && self.published().len() > 0 {
            SlotPtr {
                cl_index: ((self.progress@.read_line + 1) % self.lines()) as usize,
                cl_offset: 0,
            }
        } else {
            self.read_ptr()
        }
    }

    /// How far the consumer can read once it looks for more: up to the end of the
    /// first part-filled line, or of the last line that was released.
    pub open spec fn next_bound(&self) -> SlotPtr {
        if self.interruptions@.len() > 0 {
            self.interruptions@[0]
        } else {
            SlotPtr { cl_index: ((self.head - 1) % self.lines()) as usize, cl_offset: N }
        }
    }

    /// The interruptions that are left once the consumer has looked for more.
    pub open spec fn next_interruptions(&self) -> Seq<SlotPtr> {
        if self.interruptions@.len() > 0 {
            self.interruptions@.skip(1)
        } else {
            self.interruptions@
        }
    }

    /// What one batch can take depends on the messages and their lines alone, not
    /// on what the consumer last saw: all that is visible, up to the end of the
    /// first line that was released before it was full and holds an unread message.
    pub proof fn law_run(&self)
        requires
            self.wf(),
        ensures
            self.run() == self.log@.run(N as int),
            0 <= self.run() <= self.log@.starts.last() - self.log@.read,
            self.run() == 0 <==> self.log@.starts.last() == self.log@.read,
            forall|l: int|
                #![trigger self.log@.starts[l]]
                0 < l < self.log@.starts.len() && self.log@.starts[l] - self.log@.starts[l - 1] < N
                    && self.log@.read < self.log@.starts[l] ==> self.run() <= self.log@.starts[l]
                    - self.log@.read,
            self.run() < self.log@.starts.last() - self.log@.read ==> exists|l: int|
                #![trigger self.log@.starts[l]]
                0 < l < self.log@.starts.len() && self.log@.starts[l] - self.log@.starts[l - 1] < N
                    && self.log@.read < self.log@.starts[l] && self.run() == self.log@.starts[l]
                    - self.log@.read,
    {
        let log = self.log@;
        let n = N as int;
        let w = log.write_line();
        log.lemma_starts_ordered(0, w, n);
        log.law_run(n);
        assert forall|l: int|
            #![trigger log.starts[l]]
            0 < l < log.starts.len() && log.starts[l] - log.starts[l - 1] < N && log.read
                < log.starts[l] implies self.run() <= log.starts[l] - log.read by {
            assert(log.fill(l - 1) == log.starts[l] - log.starts[l - 1]);
            log.law_run_stops_at_part_filled_line(l - 1, n);
        }
        if self.run() < log.starts.last() - log.read {
            log.law_run_stops_for_a_reason(n);
            let x = choose|x: int|
                0 <= x < w && #[trigger] log.fill(x) < n && log.read < log.end(x) && log.run(n)
                    == log.end(x) - log.read;
            assert(log.starts[x + 1] == log.end(x));
            assert(log.starts[x + 1] - log.starts[x + 1 - 1] < N);
        }
    }

    /// If every line with an unread message was full when it was released, one
    /// batch can take all that is visible: a batch that asks for no more, and for
    /// no more than the largest batch, gets what it asks for.
    pub proof fn law_full_lines_are_one_batch(&self, wanted: int)
        requires
            self.wf(),
            forall|l: int|
                #![trigger self.log@.starts[l]]
                0 < l < self.log@.starts.len() && self.log@.read < self.log@.starts[l]
                    ==> self.log@.starts[l] - self.log@.starts[l - 1] == N,
        ensures
            self.run() == self.published().len(),
            0 <= wanted <= self.published().len() && wanted <= self.capacity - N ==> {
                &&& wanted <= self.run()
                &&& math::least(wanted, self.capacity - N, self.run()) == wanted
            },
    {
        self.law_run();
        self.log@.law_lines_cut_messages(N as int);
        self.log@.lemma_starts_ordered(0, self.log@.write_line(), N as int);
        math::law_least(wanted, self.capacity - N, self.run());
    }

    /// What the ring shows is what its record says.
    pub proof fn law_ring_shows_record(&self)
        requires
            self.wf(),
        ensures
            self.published() == self.log@.messages.subrange(
                self.log@.read,
                self.log@.starts.last(),
            ),
            self.pending() == self.log@.messages.subrange(
                self.log@.starts.last(),
                self.log@.messages.len() as int,
            ),
            self.lines() == self.cl_mask + 1,
            self.capacity == (self.cl_mask + 1) * N,
            self.head == (self.log@.starts.len() - 1) % (self.cl_mask + 1),
    {
        self.log@.law_lines_cut_messages(N as int);
    }

    /// Whether the consumer stands right behind a message that was delivered.
    pub open spec fn reads_on(&self) -> bool {
        &&& 0 <= self.progress@.read_line < self.log@.write_line()
        &&& 0 < self.progress@.read_offset <= self.log@.fill(self.progress@.read_line)
        &&& self.log@.read == self.log@.starts[self.progress@.read_line]
            + self.progress@.read_offset
    }

    /// Nothing but what the consumer writes differs from `before`.
    pub open spec fn received_from(&self, before: &Self) -> bool {
        &&& self.head == before.head
        &&& self.cl_mask == before.cl_mask
        &&& self.capacity == before.capacity
        &&& self.log@ == (Log { read: self.log@.read, ..before.log@ })
    }

    /// Receiving never takes room away from the producer.
    pub proof fn lemma_room_kept(before: &Self, after: &Self)
        requires
            before.wf(),
            after.wf(),
            after.received_from(before),
            before.progress@.tail_line <= after.progress@.tail_line,
        ensures
            before.free() <= after.free(),
    {
        before.lemma_spare_lines();
        after.lemma_spare_lines();
        let a = before.spare_lines();
        let b = after.spare_lines();
        assert(a * N <= b * N) by (nonlinear_arith)
            requires
                a <= b,
        ;
    }

    /// Bounds on what the consumer knows.
    pub proof fn lemma_reach(&self)
        requires
            self.wf(),
        ensures
            0 <= self.reach() < self.capacity,
            self.reach() == 0 <==> self.progress@.read_line == self.progress@.seen - 1
                && self.progress@.read_offset == self.fill_of(self.progress@.seen - 1),
            0 <= self.progress@.read_offset <= N,
            0 < self.fill_of(self.progress@.seen - 1) <= N,
            self.progress@.seen - 1 - self.progress@.read_line < self.lines(),
            self.log@.write_line() - self.progress@.read_line <= self.lines(),
            self.lines() > 1 ==> self.log@.write_line() - self.progress@.read_line < self.lines(),
    {
        let line = self.progress@.read_line;
        let offset = self.progress@.read_offset;
        let last = self.progress@.seen - 1;
        let n = N as int;
        let c = self.lines();
        let f = self.fill_of(last);
        if last >= 0 {
            assert(1 <= self.log@.fill(last) <= n);
        }
        if line >= 0 {
            assert(1 <= self.log@.fill(line) <= n);
        }
        let d = last - line;
        assert(0 <= d * n + f - offset < c * n && (d * n + f - offset == 0 <==> d == 0 && offset
            == f)) by (nonlinear_arith)
            requires
                0 <= d,
                c > 1 ==> d <= c - 2,
                c == 1 ==> d == 0,
                d == 0 ==> offset <= f,
                0 <= offset <= n,
                0 < f <= n,
                0 < n,
                1 <= c,
                c == 1 ==> offset == n && f == n,
        ;
    }

    /// The message `i` places behind the one that comes next.
    pub proof fn lemma_readable(&self, i: int)
        requires
            self.wf(),
            0 <= i < self.reach(),
        ensures
            0 <= self.log@.read + i < self.log@.starts[self.log@.write_line()],
            self.slots@[(self.read_ptr().flat(N as int) + i) % (self.capacity as int)] == Some(
                self.log@.messages[self.log@.read + i],
            ),
            self.log@.read + i < self.log@.messages.len(),
    {
        let n = N as int;
        let c = self.lines();
        let log = self.log@;
        let line = self.progress@.read_line;
        let offset = self.progress@.read_offset;
        let last = self.progress@.seen - 1;
        self.lemma_reach();
        let j = offset + i;
        let l = line + j / n;
        let k = j % n;
        vstd::arithmetic::div_mod::lemma_fundamental_div_mod(j, n);
        let q = j / n;
        let f = self.fill_of(last);
        assert(0 <= q <= last - line && (q == last - line ==> k < f)) by (nonlinear_arith)
            requires
                0 <= j < (last - line) * n + f,
                j == n * q + k,
                0 <= k < n,
                0 < f <= n,
                0 <= last - line,
        ;
        assert(l >= 0) by {
            if line < 0 {
                assert(q >= 1) by (nonlinear_arith)
                    requires
                        j == n * q + k,
                        0 <= k < n,
                        j >= n,
                ;
            }
        }
        assert(q * n == n * q) by (nonlinear_arith);
        self.lemma_message_at(l, k, i);
        math::lemma_walk(line, j, c, n);
        assert(self.slots@[math::slot_index(l, k, c, n)] == Some(log.messages[log.starts[l] + k]));
        log.lemma_starts_ordered(l + 1, log.write_line(), n);
        log.lemma_starts_ordered(0, l, n);
    }

    /// The place of a message that the consumer knows to be readable.
    proof fn lemma_message_at(&self, l: int, k: int, i: int)
        requires
            self.wf(),
            0 <= l,
            self.progress@.read_line <= l < self.progress@.seen,
            0 <= k,
            (l - self.progress@.read_line) * N + k == self.progress@.read_offset + i,
            0 <= i,
            k < N,
            l == self.progress@.seen - 1 ==> k < self.log@.fill(l),
        ensures
            self.log@.starts[l] + k == self.log@.read + i,
            k < self.log@.fill(l),
            l < self.log@.write_line(),
    {
        let n = N as int;
        let log = self.log@;
        let line = self.progress@.read_line;
        let offset = self.progress@.read_offset;
        if l == line {
            assert((l - line) * n == 0) by (nonlinear_arith)
                requires
                    l == line,
            ;
            assert(offset <= k < n);
        } else {
            log.lemma_full_lines(line + 1, l, n);
            let d = l - line;
            assert((d - 1) * n + n == d * n) by (nonlinear_arith);
            assert(l < self.progress@.seen - 1 ==> log.fill(l) == n);
            if line >= 0 {
                if offset < n {
                    assert(log.fill(line) == n);
                }
            }
        }
    }

    /// The run that one batch can take is what the consumer knows, once it has
    /// looked as far ahead as it can.
    pub proof fn lemma_reach_is_run(&self)
        requires
            self.wf(),
            self.extended(),
            self.reach() > 0,
        ensures
            self.reach() == self.run(),
    {
        let n = N as int;
        let log = self.log@;
        let line = self.progress@.read_line;
        let offset = self.progress@.read_offset;
        let last = self.progress@.seen - 1;
        self.lemma_reach();
        assert(last >= 0) by {
            if last < 0 {
                assert(line == -1);
            }
        }
        // The end of what the consumer knows, counted in messages.
        assert(self.reach() == log.end(last) - log.read) by {
            let f = log.fill(last);
            if last == line {
                assert((last - line) * n == 0) by (nonlinear_arith)
                    requires
                        last == line,
                ;
            } else {
                log.lemma_full_lines(line + 1, last, n);
                assert((last - line - 1) * n + n == (last - line) * n) by (nonlinear_arith);
                if line >= 0 && offset < n {
                    assert(log.fill(line) == n);
                }
            }
        }
        assert forall|i: int| 0 <= i < last && #[trigger] log.fill(i) < n implies log.end(i)
            <= log.read by {
            if i < line {
                log.lemma_starts_ordered(i + 1, line, n);
            } else if i == line {
                assert(offset == n);
            } else {
                assert(log.fill(i) == n);
            }
        }
        if log.fill(last) < n {
            log.lemma_run_end_at(0, last, n);
        } else {
            assert forall|i: int|
                0 <= i < log.write_line() && #[trigger] log.fill(i) < n implies log.end(i)
                <= log.read by {
                assert(i != last);
            }
            log.lemma_run_end_open(0, n);
        }
    }

    /// Nothing more is visible when the consumer has read all that it knows and
    /// stands in the last line that was released; something is otherwise.
    pub proof fn lemma_nothing_left(&self)
        requires
            self.wf(),
            self.reach() == 0,
        ensures
            self.published().len() == 0 <==> self.progress@.read_line + 1
                == self.log@.write_line(),
            self.log@.read == self.log@.starts[self.progress@.read_line + 1],
            (self.progress@.read_line + 1) % self.lines() == self.head
                <==> self.progress@.read_line + 1 == self.log@.write_line(),
    {
        let log = self.log@;
        let line = self.progress@.read_line;
        let n = N as int;
        self.lemma_reach();
        log.lemma_starts_ordered(line + 1, log.write_line(), n);
        log.lemma_starts_ordered(0, log.write_line(), n);
        if (line + 1) % self.lines() == self.head {
            math::lemma_same_remainder(log.write_line(), line + 1, self.lines());
        }
    }

    /// The distance between two places less than a lap apart.
    pub proof fn lemma_distance(&self, l1: int, k1: int, l2: int, k2: int)
        requires
            self.laid_out(),
            0 <= (l2 - l1) * N + k2 - k1 < self.capacity,
        ensures
            math::ring_distance(
                (l1 % self.lines()) * N + k1,
                (l2 % self.lines()) * N + k2,
                self.capacity as int,
            ) == (l2 - l1) * N + k2 - k1,
    {
        let n = N as int;
        math::lemma_slot_distance(l2, k2, l1, k1, self.lines(), n);
        assert((l2 * n + k2) - (l1 * n + k1) == (l2 - l1) * n + k2 - k1) by (nonlinear_arith);
        vstd::arithmetic::div_mod::lemma_small_mod(
            ((l2 - l1) * n + k2 - k1) as nat,
            self.capacity as nat,
        );
    }

    /// Knowing of more lines, where all that was known before is full.
    pub proof fn lemma_extended(before: &Self, after: &Self)
        requires
            before.wf(),
            *after == (Buffer {
                interruptions: after.interruptions,
                progress: after.progress,
                ..*before
            }),
            after.progress@ == (Progress {
                seen: after.progress@.seen,
                breaks: after.progress@.breaks,
                ..before.progress@
            }),
            before.fill_of(before.progress@.seen - 1) == N,
            before.progress@.seen < after.progress@.seen <= before.log@.write_line(),
            forall|l: int|
                before.progress@.seen <= l < after.progress@.seen - 1
                    ==> #[trigger] before.log@.fill(l) == N,
            after.breaks_wf(),
        ensures
            after.wf(),
    {
        Self::lemma_slots_kept(before, after);
    }

    /// Going on to the next line behind a part-filled one.
    pub proof fn lemma_jump(before: &Self, after: &Self)
        requires
            before.wf(),
            before.reach() == 0,
            *after == (Buffer {
                interruptions: after.interruptions,
                progress: after.progress,
                ..*before
            }),
            after.progress@ == (Progress {
                read_line: before.progress@.read_line + 1,
                read_offset: 0,
                seen: after.progress@.seen,
                breaks: after.progress@.breaks,
                ..before.progress@
            }),
            before.progress@.seen < after.progress@.seen <= before.log@.write_line(),
            forall|l: int|
                before.progress@.seen <= l < after.progress@.seen - 1
                    ==> #[trigger] before.log@.fill(l) == N,
            after.breaks_wf(),
        ensures
            after.wf(),
    {
        before.lemma_reach();
        before.lemma_nothing_left();
        assert(1 <= before.log@.fill(before.progress@.read_line + 1));
        Self::lemma_slots_kept(before, after);
    }

    /// A consumer at the end of a part-filled line knows of nothing else.
    pub proof fn lemma_not_at_break(&self)
        requires
            self.wf(),
        ensures
            self.at_break() ==> self.reach() == 0 && self.extended(),
    {
        self.lemma_reach();
    }

    /// Taking up the oldest interruption.
    pub proof fn lemma_break_taken(before: &Self, after: &Self)
        requires
            before.wf(),
            before.interruptions@.len() > 0,
            after.interruptions@ == before.interruptions@.skip(1),
            after.cl_mask == before.cl_mask,
            after.log@ == before.log@,
            after.progress@ == (Progress {
                seen: before.progress@.breaks[0] + 1,
                breaks: before.progress@.breaks.skip(1),
                ..before.progress@
            }),
        ensures
            after.breaks_wf(),
            before.interruptions@[0] == after.end_of(after.progress@.seen - 1),
            before.progress@.seen < after.progress@.seen <= before.log@.write_line(),
            before.log@.fill(after.progress@.seen - 1) < N,
            forall|l: int|
                before.progress@.seen <= l < after.progress@.seen - 1
                    ==> #[trigger] before.log@.fill(l) == N,
    {
        let log = before.log@;
        let breaks = before.progress@.breaks;
        let rest = after.progress@.breaks;
        assert(before.progress@.seen <= breaks[0] < log.write_line());
        assert(before.interruptions@[0] == before.end_of(breaks[0]));
        assert forall|l: int|
            before.progress@.seen <= l < breaks[0] implies #[trigger] log.fill(l) == N by {
            if log.fill(l) < N {
                assert(breaks.contains(l));
                let i = breaks.index_of(l);
                assert(i > 0 ==> breaks[0] < breaks[i]);
            }
        }
        assert forall|i: int| 0 <= i < rest.len() implies after.progress@.seen <= #[trigger] rest[i]
            < log.write_line() && log.fill(rest[i]) < N by {
            assert(rest[i] == breaks[i + 1]);
            assert(breaks[0] < breaks[i + 1]);
        }
        assert forall|l: int|
            after.progress@.seen <= l < log.write_line() && #[trigger] log.fill(l)
                < N implies rest.contains(l) by {
            assert(breaks.contains(l));
            let i = breaks.index_of(l);
            assert(rest[i - 1] == l);
        }
        assert forall|i: int| 0 <= i < rest.len() implies (#[trigger] after.interruptions@[i])
            == after.end_of(rest[i]) by {
            assert(before.interruptions@[i + 1] == before.end_of(breaks[i + 1]));
        }
    }

    /// If there is no interruption, every line that the consumer does not know
    /// of is full.
    pub proof fn lemma_no_break(&self)
        requires
            self.wf(),
            self.interruptions@.len() == 0,
        ensures
            forall|l: int|
                self.progress@.seen <= l < self.log@.write_line() ==> #[trigger] self.log@.fill(l)
                    == N,
    {
        assert forall|l: int|
            self.progress@.seen <= l < self.log@.write_line() implies #[trigger] self.log@.fill(l)
            == N by {
            if self.log@.fill(l) < N {
                assert(self.progress@.breaks.contains(l));
            }
        }
    }

    /// The interruptions do not depend on how much was read.
    pub proof fn lemma_breaks_kept(before: &Self, after: &Self)
        requires
            before.breaks_wf(),
            after.interruptions@ == before.interruptions@,
            after.cl_mask == before.cl_mask,
            after.log@.messages == before.log@.messages,
            after.log@.starts == before.log@.starts,
            after.progress@.seen == before.progress@.seen,
            after.progress@.breaks == before.progress@.breaks,
        ensures
            after.breaks_wf(),
    {
        assert forall|l: int| #[trigger] after.log@.fill(l) == before.log@.fill(l) by {}
        assert forall|i: int| 0 <= i < after.progress@.breaks.len() implies (
        #[trigger] after.interruptions@[i]) == after.end_of(after.progress@.breaks[i]) by {
            assert(before.interruptions@[i] == before.end_of(before.progress@.breaks[i]));
        }
    }

    /// Slots that were not touched still hold their messages.
    proof fn lemma_slots_kept(before: &Self, after: &Self)
        requires
            before.wf(),
            after.slots@ == before.slots@,
            after.cl_mask == before.cl_mask,
            after.log@.messages == before.log@.messages,
            after.log@.starts == before.log@.starts,
            before.log@.read <= after.log@.read,
        ensures
            after.slots_wf(),
    {
        let n = N as int;
        let log = before.log@;
        assert forall|l: int, k: int|
            #![trigger math::slot_index(l, k, after.lines(), n)]
            0 <= l && after.progress@.read_line <= l <= log.write_line() && 0 <= k
                < after.log@.fill(l) && after.log@.read <= log.starts[l] + k implies after.slots@[math::slot_index(
            l,
            k,
            after.lines(),
            n,
        )] == Some(log.messages[log.starts[l] + k]) by {
            assert(after.log@.fill(l) == log.fill(l));
            let line = before.progress@.read_line;
            if l < line {
                log.lemma_starts_ordered(l + 1, line, n);
            }
            assert(before.slots@[math::slot_index(l, k, before.lines(), n)] == Some(
                log.messages[log.starts[l] + k],
            ));
        }
    }

    /// Taking the next message out of its slot leaves all others in theirs.
    proof fn lemma_slot_taken(before: &Self, after: &Self, line: int, offset: int)
        requires
            before.wf(),
            0 <= line,
            before.progress@.read_line <= line < before.log@.write_line(),
            0 <= offset < before.log@.fill(line),
            before.log@.starts[line] + offset == before.log@.read,
            after.slots@ == before.slots@.update(
                math::slot_index(line, offset, before.lines(), N as int),
                None,
            ),
            after.cl_mask == before.cl_mask,
            after.log@ == before.log@.recv(1),
            before.progress@.read_line <= after.progress@.read_line,
        ensures
            after.slots_wf(),
    {
        let n = N as int;
        let c = before.lines();
        let log = before.log@;
        let taken = math::slot_index(line, offset, c, n);
        before.lemma_reach();
        assert(log.fill(line) <= n);
        math::lemma_slot_index_bound(line, offset, c, n);
        assert forall|l: int, k: int|
            #![trigger math::slot_index(l, k, after.lines(), n)]
            0 <= l && after.progress@.read_line <= l <= log.write_line() && 0 <= k
                < after.log@.fill(l) && after.log@.read <= log.starts[l] + k implies after.slots@[math::slot_index(
            l,
            k,
            after.lines(),
            n,
        )] == Some(log.messages[log.starts[l] + k]) by {
            assert(after.log@.fill(l) == log.fill(l));
            let j = math::slot_index(l, k, c, n);
            assert(before.slots@[j] == Some(log.messages[log.starts[l] + k]));
            math::lemma_slot_index_injective(l, k, line, offset, c, n);
            assert(j != taken);
        }
    }

    /// Leaving `count` readable messages behind receives them.
    pub proof fn lemma_recv_batch(before: &Self, after: &Self, count: int)
        requires
            before.wf(),
            0 <= count <= before.reach(),
            after.slots@ == before.slots@,
            after.cl_mask == before.cl_mask,
            after.capacity == before.capacity,
            after.head == before.head,
            after.interruptions@ == before.interruptions@,
            after.log@ == before.log@.recv(count),
            ({
                let (line, offset) = moved_on(
                    before.progress@.read_line,
                    before.progress@.read_offset,
                    count,
                    before.lines(),
                    N as int,
                );
                &&& after.progress@ == (Progress {
                    tail_line: line,
                    read_line: line,
                    read_offset: offset,
                    ..before.progress@
                })
                &&& after.tail == line % before.lines()
            }),
        ensures
            after.wf(),
            before.progress@.tail_line <= after.progress@.tail_line,
            count > 0 ==> after.reads_on(),
    {
        let n = N as int;
        let c = before.lines();
        let log = before.log@;
        let line = before.progress@.read_line;
        let offset = before.progress@.read_offset;
        let last = before.progress@.seen - 1;
        let (next, rest) = moved_on(line, offset, count, c, n);
        before.lemma_reach();
        log.lemma_starts_ordered(0, log.write_line(), n);
        assert forall|l: int| 0 <= l <= log.write_line() implies #[trigger] after.log@.fill(l)
            == log.fill(l) && after.log@.end(l) == log.end(l) by {}
        if count > 0 {
            before.lemma_readable(count - 1);
        }
        log.law_recv(count, n);
        if offset == 0 && count == 0 {
            if line % c != 0 {
                assert(line > 0) by {
                    vstd::arithmetic::div_mod::lemma_small_mod(0, c as nat);
                }
                assert(log.read == log.starts[line]);
                assert(1 <= log.fill(line - 1));
            }
        } else {
            let total = offset + count;
            let full = (total - 1) / n;
            let f = before.fill_of(last);
            vstd::arithmetic::div_mod::lemma_fundamental_div_mod(total - 1, n);
            let k = (total - 1) % n;
            assert(rest == k + 1) by (nonlinear_arith)
                requires
                    rest == total - full * n,
                    total - 1 == n * full + k,
            ;
            assert(0 <= full <= last - line && (full == last - line ==> rest <= f))
                by (nonlinear_arith)
                requires
                    0 < total <= (last - line) * n + f,
                    total - 1 == n * full + k,
                    0 <= k < n,
                    rest == k + 1,
                    0 < f <= n,
                    0 <= last - line,
            ;
            if full > 0 {
                log.lemma_full_lines(line + 1, next, n);
                assert((full - 1) * n + n == full * n) by (nonlinear_arith);
                assert(next < last ==> log.fill(next) == n);
                assert(rest <= log.fill(next));
                if line >= 0 && offset < n {
                    assert(log.fill(line) == n);
                }
                assert(log.starts[next] + rest == log.read + count);
            } else {
                assert(full * n == 0) by (nonlinear_arith)
                    requires
                        full == 0,
                ;
            }
        }
        assert(after.counters_wf());
        assert(after.reader_wf());
        Self::lemma_breaks_kept(before, after);
        Self::lemma_slots_kept(before, after);
        if count > 0 {
            assert(next >= 0);
            assert(1 <= log.fill(next) <= n);
            if next == line && line < last {
                assert(offset < n);
            }
        }
    }

    /// Moving the read position on by `count` slots.
    pub proof fn lemma_read_ptr_advanced(&self, count: int)
        requires
            self.wf(),
            0 <= count <= self.reach(),
        ensures
            ({
                let (line, offset) = moved_on(
                    self.progress@.read_line,
                    self.progress@.read_offset,
                    count,
                    self.lines(),
                    N as int,
                );
                &&& self.advanced(self.read_ptr(), count).cl_index == line % self.lines()
                &&& self.advanced(self.read_ptr(), count).cl_offset == offset
                &&& -1 <= line
            }),
    {
        let n = N as int;
        let c = self.lines();
        let line = self.progress@.read_line;
        let p = line % c;
        let offset = self.progress@.read_offset;
        self.lemma_reach();
        self.lemma_head_and_tail();
        let total = offset + count;
        let to = self.read_ptr().flat(n) + count;
        assert(to == p * n + total);
        vstd::arithmetic::div_mod::lemma_fundamental_div_mod(total, n);
        let q = total / n;
        let k = total % n;
        assert(p * n + total == (p + q) * n + k) by (nonlinear_arith)
            requires
                total == n * q + k,
        ;
        math::lemma_line_and_offset(p + q, k, n);
        math::lemma_mod_shift(line, q, c);
        math::lemma_mod_shift(line, q - 1, c);
        if total > 0 {
            vstd::arithmetic::div_mod::lemma_fundamental_div_mod(total - 1, n);
            let full = (total - 1) / n;
            if k == 0 {
                assert(total - 1 == (q - 1) * n + (n - 1)) by (nonlinear_arith)
                    requires
                        total == n * q,
                ;
                math::lemma_line_and_offset(q - 1, n - 1, n);
                assert(total - (q - 1) * n == n) by (nonlinear_arith)
                    requires
                        total == n * q,
                ;
            } else {
                assert(total - 1 == q * n + (k - 1)) by (nonlinear_arith)
                    requires
                        total == n * q + k,
                ;
                math::lemma_line_and_offset(q, k - 1, n);
                assert(total - q * n == k) by (nonlinear_arith)
                    requires
                        total == n * q + k,
                ;
            }
            assert(to > 0) by (nonlinear_arith)
                requires
                    to == p * n + total,
                    0 <= p,
                    0 < n,
                    0 < total,
            ;
            assert(0 <= full) by {
                vstd::arithmetic::div_mod::lemma_div_pos_is_pos(total - 1, n);
            }
        } else {
            assert(q == 0 && k == 0) by {
                vstd::arithmetic::div_mod::lemma_div_basics(n);
                vstd::arithmetic::div_mod::lemma_small_mod(0, n as nat);
            }
            assert(to > 0 <==> p > 0) by (nonlinear_arith)
                requires
                    to == p * n + total,
                    total == 0,
                    0 <= p,
                    0 < n,
            ;
        }
    }

    /// If nothing is visible, the consumer knows of every line.
    pub proof fn lemma_all_seen(&self)
        requires
            self.wf(),
            self.published().len() == 0,
        ensures
            self.progress@.seen == self.log@.write_line(),
    {
        let log = self.log@;
        let line = self.progress@.read_line;
        let seen = self.progress@.seen;
        let n = N as int;
        self.lemma_reach();
        log.lemma_starts_ordered(0, log.write_line(), n);
        if seen < log.write_line() {
            log.lemma_starts_ordered(seen, log.write_line(), n);
            log.lemma_starts_ordered(line + 1, seen, n);
            if line >= 0 {
                assert(log.end(line) == log.starts[line + 1]);
            }
        }
    }

    /// Receiving one message from the line that the consumer stands in.
    pub proof fn lemma_recv_in_line(before: &Self, after: &Self)
        requires
            before.wf(),
            before.reach() > 0,
            before.progress@.read_offset < N,
            after.slots@ == before.slots@.update(
                math::slot_index(
                    before.progress@.read_line,
                    before.progress@.read_offset,
                    before.lines(),
                    N as int,
                ),
                None,
            ),
            after.cl_mask == before.cl_mask,
            after.capacity == before.capacity,
            after.head == before.head,
            after.tail == before.tail,
            after.interruptions@ == before.interruptions@,
            after.log@ == before.log@.recv(1),
            after.progress@ == (Progress {
                read_offset: before.progress@.read_offset + 1,
                ..before.progress@
            }),
        ensures
            after.wf(),
            before.slots@[math::slot_index(
                before.progress@.read_line,
                before.progress@.read_offset,
                before.lines(),
                N as int,
            )] == Some(before.published()[0]),
            before.published().len() > 0,
            after.reads_on(),
    {
        let n = N as int;
        let log = before.log@;
        let line = before.progress@.read_line;
        let offset = before.progress@.read_offset;
        before.lemma_reach();
        assert(1 <= log.fill(line) <= n);
        assert(offset < log.fill(line)) by {
            if line == before.progress@.seen - 1 {
                assert((before.progress@.seen - 1 - line) * n == 0) by (nonlinear_arith)
                    requires
                        line == before.progress@.seen - 1,
                ;
            }
        }
        log.lemma_starts_ordered(line + 1, log.write_line(), n);
        log.lemma_starts_ordered(0, line, n);
        assert forall|l: int| 0 <= l <= log.write_line() implies #[trigger] after.log@.fill(l)
            == log.fill(l) by {}
        log.law_recv(1, n);
        math::lemma_slot_index_bound(line, offset, before.lines(), n);
        assert(after.reader_wf());
        Self::lemma_breaks_kept(before, after);
        Self::lemma_slot_taken(before, after, line, offset);
    }

    /// Receiving the first message of the next line.
    pub proof fn lemma_recv_next_line(before: &Self, after: &Self)
        requires
            before.wf(),
            before.log@.read == before.log@.starts[before.progress@.read_line + 1],
            before.progress@.read_line + 1 < after.progress@.seen <= before.log@.write_line(),
            after.slots@ == before.slots@.update(
                math::slot_index(before.progress@.read_line + 1, 0, before.lines(), N as int),
                None,
            ),
            after.cl_mask == before.cl_mask,
            after.capacity == before.capacity,
            after.head == before.head,
            after.tail == (before.progress@.read_line + 1) % before.lines(),
            after.log@ == before.log@.recv(1),
            after.progress@ == (Progress {
                tail_line: before.progress@.read_line + 1,
                read_line: before.progress@.read_line + 1,
                read_offset: 1,
                seen: after.progress@.seen,
                breaks: after.progress@.breaks,
            }),
            forall|l: int|
                before.progress@.read_line < l < after.progress@.seen - 1
                    ==> #[trigger] before.log@.fill(l) == N,
            after.breaks_wf(),
        ensures
            after.wf(),
            before.slots@[math::slot_index(
                before.progress@.read_line + 1,
                0,
                before.lines(),
                N as int,
            )] == Some(before.published()[0]),
            before.published().len() > 0,
            after.reads_on(),
    {
        let n = N as int;
        let log = before.log@;
        let line = before.progress@.read_line + 1;
        before.lemma_reach();
        assert(1 <= log.fill(line) <= n);
        log.lemma_starts_ordered(line + 1, log.write_line(), n);
        log.lemma_starts_ordered(0, line, n);
        assert forall|l: int| 0 <= l <= log.write_line() implies #[trigger] after.log@.fill(l)
            == log.fill(l) by {}
        log.law_recv(1, n);
        math::lemma_slot_index_bound(line, 0, before.lines(), n);
        assert(after.reader_wf());
        Self::lemma_slot_taken(before, after, line, 0);
    }
}

} // verus!
