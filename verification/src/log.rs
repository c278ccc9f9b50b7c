//! What a queue holds, seen as a record of every message ever accepted.
//!
//! The record is cut into cache lines. All lines but the last one are released
//! to the consumer; the last one still belongs to the producer. A line that was
//! released before it was full ends a run: one batch never reaches past it.

use vstd::prelude::*;

verus! {

/// The record of a queue whose cache lines hold `n` messages each.
///
/// - `messages` are all messages accepted so far, in the order of acceptance;
/// - `starts[l]` is how many messages came before the first one of line `l`;
/// - `read` is how many messages have been delivered.
pub struct Log<T> {
    pub messages: Seq<T>,
    pub starts: Seq<int>,
    pub read: int,
}

/// How many lines are left behind when a line grows to `total` messages and
/// then overflows: a line is left only for the sake of a message that no
/// longer fits in it.
pub open spec fn lines_left(total: int, n: int) -> int {
    if total <= n {
        0
    } else {
        (total - 1) / n
    }
}

impl<T> Log<T> {
    /// The record of a queue that was just made.
    pub open spec fn empty() -> Self {
        Log { messages: Seq::empty(), starts: seq![0], read: 0 }
    }

    /// The line that the producer owns. All lines before it are released.
    pub open spec fn write_line(self) -> int {
        self.starts.len() - 1
    }

    /// How many messages came up to the end of line `l`.
    pub open spec fn end(self, l: int) -> int {
        if l < self.write_line() {
            self.starts[l + 1]
        } else {
            self.messages.len() as int
        }
    }

    /// How many messages line `l` holds.
    pub open spec fn fill(self, l: int) -> int {
        self.end(l) - self.starts[l]
    }

    /// A record that a queue with `n` messages to the line can have.
    pub open spec fn wf(self, n: int) -> bool {
        &&& 0 < n
        &&& self.starts.len() > 0
        &&& self.starts[0] == 0
        &&& forall|l: int| 0 <= l < self.write_line() ==> 1 <= #[trigger] self.fill(l) <= n
        &&& 0 <= self.fill(self.write_line()) <= n
        &&& 0 <= self.read <= self.starts[self.write_line()]
    }

    /// All messages that were ever accepted.
    pub open spec fn accepted(self) -> Seq<T> {
        self.messages
    }

    /// The messages that were handed to the consumer.
    pub open spec fn delivered(self) -> Seq<T> {
        self.messages.take(self.read)
    }

    /// The messages that the consumer can see and has not received.
    pub open spec fn published(self) -> Seq<T> {
        self.messages.subrange(self.read, self.starts[self.write_line()])
    }

    /// The messages that still lie in the producer's own line.
    pub open spec fn pending(self) -> Seq<T> {
        self.messages.skip(self.starts[self.write_line()])
    }

    /// The end of the first part-filled line, from line `l` on, that holds an
    /// unread message; the end of what is released if there is none.
    pub open spec fn run_end_from(self, l: int, n: int) -> int
        decreases self.write_line() - l,
    {
        if l >= self.write_line() {
            self.starts[self.write_line()]
        } else if self.fill(l) < n && self.read < self.end(l) {
            self.end(l)
        } else {
            self.run_end_from(l + 1, n)
        }
    }

    /// How many messages one batch can take.
    pub open spec fn run(self, n: int) -> int {
        self.run_end_from(0, n) - self.read
    }

    /// The record after `items` were sent.
    pub open spec fn send(self, items: Seq<T>, n: int) -> Self {
        let left = lines_left((self.pending().len() + items.len()) as int, n);
        let last = self.starts[self.write_line()];
        Log {
            messages: self.messages + items,
            starts: self.starts + Seq::new(left as nat, |i: int| last + (i + 1) * n),
            read: self.read,
        }
    }

    /// The record after the producer's line was released.
    pub open spec fn flush(self) -> Self {
        if self.pending().len() == 0 {
            self
        } else {
            Log { starts: self.starts.push(self.messages.len() as int), ..self }
        }
    }

    /// The record after `count` messages were received.
    pub open spec fn recv(self, count: int) -> Self {
        Log { read: self.read + count, ..self }
    }

    /// Lines start in order.
    pub proof fn lemma_starts_ordered(self, a: int, b: int, n: int)
        requires
            self.wf(n),
            0 <= a <= b <= self.write_line(),
        ensures
            self.starts[a] + (b - a) <= self.starts[b],
            self.starts[b] <= self.messages.len(),
            0 <= self.starts[a],
        decreases b - a, a,
    {
        if a < b {
            self.lemma_starts_ordered(a, b - 1, n);
            assert(1 <= self.fill(b - 1) <= n);
        }
        if b < self.write_line() {
            self.lemma_starts_to_end(b, n);
        }
        if a > 0 {
            self.lemma_starts_from_zero(a, n);
        }
    }

    proof fn lemma_starts_to_end(self, b: int, n: int)
        requires
            self.wf(n),
            0 <= b <= self.write_line(),
        ensures
            self.starts[b] <= self.messages.len(),
        decreases self.write_line() - b,
    {
        if b < self.write_line() {
            assert(1 <= self.fill(b) <= n);
            self.lemma_starts_to_end(b + 1, n);
        }
    }

    proof fn lemma_starts_from_zero(self, a: int, n: int)
        requires
            self.wf(n),
            0 <= a <= self.write_line(),
        ensures
            0 <= self.starts[a],
        decreases a,
    {
        if a > 0 {
            self.lemma_starts_from_zero(a - 1, n);
            assert(1 <= self.fill(a - 1) <= n);
        }
    }

    /// Lines hold no more than `n` messages each.
    pub proof fn lemma_lines_hold(self, a: int, b: int, n: int)
        requires
            self.wf(n),
            0 <= a <= b <= self.write_line(),
        ensures
            self.starts[b] - self.starts[a] <= (b - a) * n,
        decreases b - a,
    {
        if a < b {
            self.lemma_lines_hold(a, b - 1, n);
            assert(1 <= self.fill(b - 1) <= n);
            assert((b - 1 - a) * n + n == (b - a) * n) by (nonlinear_arith);
        } else {
            assert((b - a) * n == 0) by (nonlinear_arith)
                requires
                    a == b,
            ;
        }
    }

    /// Lines that are full follow each other at a distance of `n` messages.
    pub proof fn lemma_full_lines(self, a: int, b: int, n: int)
        requires
            self.wf(n),
            0 <= a <= b <= self.write_line(),
            forall|l: int| a <= l < b ==> #[trigger] self.fill(l) == n,
        ensures
            self.starts[b] == self.starts[a] + (b - a) * n,
        decreases b - a,
    {
        if a < b {
            self.lemma_full_lines(a, b - 1, n);
            assert(self.fill(b - 1) == n);
            assert((b - 1 - a) * n + n == (b - a) * n) by (nonlinear_arith);
        } else {
            assert((b - a) * n == 0) by (nonlinear_arith)
                requires
                    a == b,
            ;
        }
    }

    /// Where the first run ends: at the end of the part-filled line `x`, if no
    /// part-filled line before it holds an unread message.
    pub proof fn lemma_run_end_at(self, l: int, x: int, n: int)
        requires
            self.wf(n),
            0 <= l <= x < self.write_line(),
            self.fill(x) < n,
            self.read < self.end(x),
            forall|i: int| l <= i < x && #[trigger] self.fill(i) < n ==> self.end(i) <= self.read,
        ensures
            self.run_end_from(l, n) == self.end(x),
        decreases x - l,
    {
        if l < x {
            assert(self.fill(l) < n ==> self.end(l) <= self.read);
            self.lemma_run_end_at(l + 1, x, n);
        }
    }

    /// Where the first run ends: at the end of what is released, if no
    /// part-filled line holds an unread message.
    pub proof fn lemma_run_end_open(self, l: int, n: int)
        requires
            self.wf(n),
            0 <= l <= self.write_line(),
            forall|i: int|
                l <= i < self.write_line() && #[trigger] self.fill(i) < n ==> self.end(i)
                    <= self.read,
        ensures
            self.run_end_from(l, n) == self.starts[self.write_line()],
        decreases self.write_line() - l,
    {
        if l < self.write_line() {
            assert(self.fill(l) < n ==> self.end(l) <= self.read);
            self.lemma_run_end_open(l + 1, n);
        }
    }

    proof fn lemma_run_end_bounds(self, l: int, n: int)
        requires
            self.wf(n),
            0 <= l <= self.write_line(),
        ensures
            self.read <= self.run_end_from(l, n) <= self.starts[self.write_line()],
            self.read < self.starts[self.write_line()] ==> self.read < self.run_end_from(l, n),
        decreases self.write_line() - l,
    {
        if l < self.write_line() {
            self.lemma_starts_ordered(l + 1, self.write_line(), n);
            self.lemma_run_end_bounds(l + 1, n);
        }
    }

    proof fn lemma_run_end_partial(self, l: int, x: int, n: int)
        requires
            self.wf(n),
            0 <= l <= x < self.write_line(),
            self.fill(x) < n,
            self.read < self.end(x),
        ensures
            self.run_end_from(l, n) <= self.end(x),
        decreases x - l,
    {
        if l < x {
            if self.fill(l) < n && self.read < self.end(l) {
                self.lemma_starts_ordered(l + 1, x + 1, n);
            } else {
                self.lemma_run_end_partial(l + 1, x, n);
            }
        }
    }

    /// A queue that was just made has seen no message.
    pub proof fn law_empty(n: int)
        requires
            0 < n,
        ensures
            Self::empty().wf(n),
            Self::empty().accepted() == Seq::<T>::empty(),
            Self::empty().delivered() == Seq::<T>::empty(),
            Self::empty().published() == Seq::<T>::empty(),
            Self::empty().pending() == Seq::<T>::empty(),
    {
        assert(Self::empty().delivered() =~= Seq::<T>::empty());
        assert(Self::empty().published() =~= Seq::<T>::empty());
        assert(Self::empty().pending() =~= Seq::<T>::empty());
    }

    /// The lines cut the accepted messages into pieces: the last one is pending,
    /// and what was not delivered of the others is visible.
    pub proof fn law_lines_cut_messages(self, n: int)
        requires
            self.wf(n),
        ensures
            self.accepted() == self.messages,
            self.delivered() == self.messages.subrange(0, self.read),
            self.published() == self.messages.subrange(self.read, self.starts.last()),
            self.pending() == self.messages.subrange(
                self.starts.last(),
                self.messages.len() as int,
            ),
            forall|l: int|
                #![trigger self.fill(l)]
                0 <= l < self.starts.len() - 1 ==> {
                    &&& self.fill(l) == self.starts[l + 1] - self.starts[l]
                    &&& self.end(l) == self.starts[l + 1]
                },
    {
        self.lemma_starts_ordered(0, self.write_line(), n);
        assert(self.pending() =~= self.messages.subrange(
            self.starts.last(),
            self.messages.len() as int,
        ));
        assert(self.delivered() =~= self.messages.subrange(0, self.read));
    }

    /// Sending leaves the lines that were released as they are, fills the
    /// producer's line and every line after it that it goes on to, and leaves
    /// something in the last one.
    pub proof fn law_send_fills_lines(self, items: Seq<T>, n: int)
        requires
            self.wf(n),
            items.len() > 0,
        ensures
            ({
                let after = self.send(items, n);
                let w = self.starts.len() - 1;
                &&& after.messages == self.messages + items
                &&& after.read == self.read
                &&& after.starts.len() >= self.starts.len()
                &&& after.starts.take(self.starts.len() as int) == self.starts
                &&& forall|l: int|
                    #![trigger after.starts[l]]
                    w < l < after.starts.len() ==> after.starts[l] == after.starts[l - 1] + n
                &&& 0 < after.messages.len() - after.starts.last() <= n
            }),
    {
        let after = self.send(items, n);
        let w = self.write_line();
        let last = self.starts[w];
        self.law_send(items, n);
        assert(after.starts.take(self.starts.len() as int) =~= self.starts);
        assert forall|l: int|
            #![trigger after.starts[l]]
            w < l < after.starts.len() implies after.starts[l] == after.starts[l - 1] + n by {
            assert(after.starts[l] == last + (l - w - 1 + 1) * n);
            if l - 1 > w {
                assert(after.starts[l - 1] == last + (l - 1 - w - 1 + 1) * n);
            }
            assert((l - w) * n - (l - w - 1) * n == n) by (nonlinear_arith);
            assert(l - w - 1 == 0 ==> (l - w - 1) * n == 0) by (nonlinear_arith);
        }
    }

    /// Releasing a line with something in it starts a new line behind it, and
    /// leaves all lines before as they are.
    pub proof fn law_flush_starts_line(self, n: int)
        requires
            self.wf(n),
        ensures
            self.flush().messages == self.messages,
            self.flush().read == self.read,
            self.messages.len() > self.starts.last() ==> self.flush().starts == self.starts.push(
                self.messages.len() as int,
            ),
            self.messages.len() == self.starts.last() ==> self.flush().starts == self.starts,
    {
        self.lemma_starts_ordered(0, self.write_line(), n);
    }

    /// Nothing is lost, doubled or reordered: what was delivered, then what is
    /// visible, then what is pending, is exactly what was accepted.
    pub proof fn law_first_in_first_out(self, n: int)
        requires
            self.wf(n),
        ensures
            self.delivered() + self.published() + self.pending() == self.accepted(),
    {
        self.lemma_starts_ordered(0, self.write_line(), n);
        assert(self.delivered() + self.published() + self.pending() =~= self.accepted());
    }

    /// Sending keeps the record valid and only ever appends to it.
    ///
    /// The messages of every line that was left become visible, together and in
    /// order. The rest stays pending; a message is pending even if it fills its
    /// line.
    pub proof fn law_send(self, items: Seq<T>, n: int)
        requires
            self.wf(n),
        ensures
            self.send(items, n).wf(n),
            self.send(items, n).accepted() == self.accepted() + items,
            self.send(items, n).delivered() == self.delivered(),
            ({
                let left = lines_left((self.pending().len() + items.len()) as int, n);
                &&& 0 <= left * n <= self.pending().len() + items.len()
                &&& self.send(items, n).published() == self.published() + (self.pending()
                    + items).take(left * n)
                &&& self.send(items, n).pending() == (self.pending() + items).skip(left * n)
                &&& self.pending().len() + items.len() > 0 ==> self.send(items, n).pending().len()
                    > 0
            }),
    {
        let w = self.write_line();
        self.lemma_starts_ordered(0, w, n);
        let total = (self.pending().len() + items.len()) as int;
        let left = lines_left(total, n);
        let after = self.send(items, n);
        let last = self.starts[w];
        if total > n {
            vstd::arithmetic::div_mod::lemma_fundamental_div_mod(total - 1, n);
            vstd::arithmetic::div_mod::lemma_div_pos_is_pos(total - 1, n);
        }
        assert(0 <= left * n <= total && total - left * n <= n && (total > 0 ==> left * n < total))
            by (nonlinear_arith)
            requires
                0 < n,
                0 <= total,
                total <= n ==> left == 0,
                total > n ==> left >= 0 && total - 1 == n * left + (total - 1) % n && 0 <= (total
                    - 1) % n < n,
        ;
        assert(after.write_line() == w + left);
        assert(after.starts[w + left] == last + left * n) by {
            if left > 0 {
                assert(after.starts[w + left] == last + (left - 1 + 1) * n);
            } else {
                assert(left * n == 0) by (nonlinear_arith)
                    requires
                        left == 0,
                ;
            }
        }
        assert forall|l: int| 0 <= l < after.write_line() implies 1 <= #[trigger] after.fill(l)
            <= n by {
            if l < w {
                assert(1 <= self.fill(l) <= n);
                if l == w - 1 {
                    assert(after.starts[l + 1] == last);
                }
            } else {
                assert(after.starts[l + 1] == last + (l - w + 1) * n);
                if l > w {
                    assert(after.starts[l] == last + (l - w) * n);
                }
                assert((l - w + 1) * n - (l - w) * n == n) by (nonlinear_arith);
                assert((l - w) * n == 0 || l > w) by (nonlinear_arith)
                    requires
                        l >= w,
                ;
            }
        }
        let joined = self.pending() + items;
        assert(after.messages.len() == last + total);
        assert(after.delivered() =~= self.delivered());
        assert(after.published() =~= self.published() + joined.take(left * n));
        assert(after.pending() =~= joined.skip(left * n));
    }

    /// Messages that fit in the producer's line stay invisible.
    pub proof fn law_send_within_line(self, items: Seq<T>, n: int)
        requires
            self.wf(n),
            self.pending().len() + items.len() <= n,
        ensures
            self.send(items, n).published() == self.published(),
            self.send(items, n).pending() == self.pending() + items,
    {
        self.law_send(items, n);
        assert(self.published() + (self.pending() + items).take(0) =~= self.published());
        assert((self.pending() + items).skip(0) =~= self.pending() + items);
        assert(0 * n == 0);
    }

    /// The message after a full line releases that line, and is itself pending.
    pub proof fn law_send_past_full_line(self, item: T, n: int)
        requires
            self.wf(n),
            self.pending().len() == n,
        ensures
            self.send(seq![item], n).published() == self.published() + self.pending(),
            self.send(seq![item], n).pending() == seq![item],
    {
        self.law_send(seq![item], n);
        assert(lines_left(n + 1, n) == 1) by {
            vstd::arithmetic::div_mod::lemma_div_by_self(n);
        }
        assert(1 * n == n);
        assert((self.pending() + seq![item]).take(n) =~= self.pending());
        assert((self.pending() + seq![item]).skip(n) =~= seq![item]);
    }

    /// Sending a batch is sending its parts one after the other.
    pub proof fn law_send_in_parts(self, first: Seq<T>, second: Seq<T>, n: int)
        requires
            self.wf(n),
        ensures
            self.send(first, n).send(second, n) == self.send(first + second, n),
    {
        let mid = self.send(first, n);
        self.law_send(first, n);
        let t0 = (self.pending().len() + first.len()) as int;
        let t1 = t0 + second.len();
        let k0 = lines_left(t0, n);
        let k1 = lines_left((mid.pending().len() + second.len()) as int, n);
        let last = self.starts[self.write_line()];
        assert(mid.pending().len() == t0 - k0 * n);
        assert(lines_left(t1, n) == k0 + k1) by {
            Self::lemma_lines_left_in_parts(t0, second.len() as int, n);
        }
        let both = mid.send(second, n);
        let once = self.send(first + second, n);
        assert(both.messages =~= once.messages);
        assert(mid.starts[mid.write_line()] == last + k0 * n) by {
            if k0 > 0 {
                assert(mid.starts[mid.write_line()] == last + (k0 - 1 + 1) * n);
            }
        }
        assert(both.starts.len() == once.starts.len());
        assert forall|i: int| 0 <= i < both.starts.len() implies both.starts[i]
            == once.starts[i] by {
            let w = self.write_line();
            if i > w {
                assert(once.starts[i] == last + (i - w - 1 + 1) * n);
                if i > w + k0 {
                    assert(both.starts[i] == last + k0 * n + (i - w - k0 - 1 + 1) * n);
                    assert(k0 * n + (i - w - k0) * n == (i - w) * n) by (nonlinear_arith);
                }
            }
        }
        assert(both.starts =~= once.starts);
    }

    proof fn lemma_lines_left_in_parts(total: int, more: int, n: int)
        requires
            0 < n,
            0 <= total,
            0 <= more,
        ensures
            lines_left(total + more, n) == lines_left(total, n) + lines_left(
                total - lines_left(total, n) * n + more,
                n,
            ),
    {
        if total > n {
            let k0 = (total - 1) / n;
            let rest = total - k0 * n + more;
            vstd::arithmetic::div_mod::lemma_fundamental_div_mod(total - 1, n);
            assert(k0 * n == n * k0) by (nonlinear_arith);
            vstd::arithmetic::div_mod::lemma_fundamental_div_mod(rest - 1, n);
            let k1 = (rest - 1) / n;
            assert(total + more - 1 == (k0 + k1) * n + (rest - 1) % n) by (nonlinear_arith)
                requires
                    rest == total - k0 * n + more,
                    rest - 1 == n * k1 + (rest - 1) % n,
            ;
            vstd::arithmetic::div_mod::lemma_fundamental_div_mod_converse(
                total + more - 1,
                n,
                k0 + k1,
                (rest - 1) % n,
            );
            if rest <= n {
                assert(k1 == 0) by {
                    vstd::arithmetic::div_mod::lemma_basic_div(rest - 1, n);
                }
            }
        }
    }

    /// Releasing the producer's line makes everything visible that was accepted.
    pub proof fn law_flush(self, n: int)
        requires
            self.wf(n),
        ensures
            self.flush().wf(n),
            self.flush().accepted() == self.accepted(),
            self.flush().delivered() == self.delivered(),
            self.flush().published() == self.published() + self.pending(),
            self.flush().pending().len() == 0,
    {
        let after = self.flush();
        self.lemma_starts_ordered(0, self.write_line(), n);
        if self.pending().len() > 0 {
            let w = self.write_line();
            assert forall|l: int| 0 <= l < after.write_line() implies 1 <= #[trigger] after.fill(l)
                <= n by {
                assert(after.fill(l) == self.fill(l));
            }
            assert(after.starts[w + 1] == self.messages.len());
        }
        assert(after.published() =~= self.published() + self.pending());
    }

    /// Releasing a line twice is releasing it once.
    pub proof fn law_flush_twice(self, n: int)
        requires
            self.wf(n),
        ensures
            self.flush().flush() == self.flush(),
    {
        self.law_flush(n);
    }

    /// What is sent and then flushed is visible, behind all that came before.
    pub proof fn law_send_then_flush(self, items: Seq<T>, n: int)
        requires
            self.wf(n),
        ensures
            self.send(items, n).flush().published() == self.published() + self.pending() + items,
            self.send(items, n).flush().pending().len() == 0,
    {
        self.law_send(items, n);
        self.send(items, n).law_flush(n);
        let left = lines_left((self.pending().len() + items.len()) as int, n);
        let joined = self.pending() + items;
        assert(self.published() + joined.take(left * n) + joined.skip(left * n)
            =~= self.published() + self.pending() + items);
    }

    /// Receiving takes the oldest visible messages, and touches nothing else.
    pub proof fn law_recv(self, count: int, n: int)
        requires
            self.wf(n),
            0 <= count <= self.published().len(),
        ensures
            self.recv(count).wf(n),
            self.recv(count).accepted() == self.accepted(),
            self.recv(count).delivered() == self.delivered() + self.published().take(count),
            self.recv(count).published() == self.published().skip(count),
            self.recv(count).pending() == self.pending(),
    {
        let after = self.recv(count);
        self.lemma_starts_ordered(0, self.write_line(), n);
        assert forall|l: int| 0 <= l < after.write_line() implies 1 <= #[trigger] after.fill(l)
            <= n by {
            assert(after.fill(l) == self.fill(l));
        }
        assert(after.delivered() =~= self.delivered() + self.published().take(count));
        assert(after.published() =~= self.published().skip(count));
    }

    /// Receiving in parts is receiving at once.
    pub proof fn law_recv_in_parts(self, first: int, second: int)
        ensures
            self.recv(first).recv(second) == self.recv(first + second),
    {
    }

    /// A batch never takes more than is visible, and takes something whenever
    /// anything is visible.
    pub proof fn law_run(self, n: int)
        requires
            self.wf(n),
        ensures
            0 <= self.run(n) <= self.published().len(),
            self.run(n) == 0 <==> self.published().len() == 0,
    {
        self.lemma_starts_ordered(0, self.write_line(), n);
        self.lemma_run_end_bounds(0, n);
    }

    proof fn lemma_run_end_reason(self, l: int, n: int)
        requires
            self.wf(n),
            0 <= l <= self.write_line(),
            self.run_end_from(l, n) < self.starts[self.write_line()],
        ensures
            exists|x: int|
                l <= x < self.write_line() && #[trigger] self.fill(x) < n && self.read < self.end(x)
                    && self.run_end_from(l, n) == self.end(x),
        decreases self.write_line() - l,
    {
        if self.fill(l) < n && self.read < self.end(l) {
            assert(self.run_end_from(l, n) == self.end(l));
        } else {
            self.lemma_run_end_reason(l + 1, n);
        }
    }

    /// A batch that cannot take all that is visible is stopped by a line that was
    /// released before it was full, and takes all up to its end.
    pub proof fn law_run_stops_for_a_reason(self, n: int)
        requires
            self.wf(n),
            self.run(n) < self.published().len(),
        ensures
            exists|l: int|
                0 <= l < self.write_line() && #[trigger] self.fill(l) < n && self.read < self.end(l)
                    && self.run(n) == self.end(l) - self.read,
    {
        self.lemma_starts_ordered(0, self.write_line(), n);
        self.lemma_run_end_reason(0, n);
    }

    /// A batch stops at the end of a line that was released before it was full.
    pub proof fn law_run_stops_at_part_filled_line(self, l: int, n: int)
        requires
            self.wf(n),
            0 <= l < self.write_line(),
            self.fill(l) < n,
            self.read < self.end(l),
        ensures
            self.run(n) <= self.end(l) - self.read,
    {
        self.lemma_run_end_partial(0, l, n);
    }

    /// A batch can take all that is visible if every line with an unread
    /// message was full when it was released.
    pub proof fn law_run_of_full_lines(self, n: int)
        requires
            self.wf(n),
            forall|l: int|
                0 <= l < self.write_line() && self.read < self.end(l) ==> #[trigger] self.fill(l)
                    == n,
        ensures
            self.run(n) == self.published().len(),
    {
        self.lemma_starts_ordered(0, self.write_line(), n);
        self.lemma_run_end_open(0, n);
    }

    /// What is sent and flushed comes out again as it went in.
    pub proof fn law_round_trip(self, items: Seq<T>, n: int)
        requires
            self.wf(n),
            self.published().len() == 0,
            self.pending().len() == 0,
        ensures
            self.send(items, n).flush().published() == items,
            self.send(items, n).flush().recv(items.len() as int).delivered() == self.delivered()
                + items,
            self.send(items, n).flush().recv(items.len() as int).published().len() == 0,
    {
        let there = self.send(items, n).flush();
        self.law_send(items, n);
        self.send(items, n).law_flush(n);
        self.law_send_then_flush(items, n);
        assert(self.published() + self.pending() + items =~= items);
        there.law_recv(items.len() as int, n);
        assert(items.take(items.len() as int) =~= items);
    }

    /// Flushing a part-filled line ends a run: no batch reaches from what was
    /// sent before to what is sent afterwards.
    pub proof fn law_flush_ends_run(self, items: Seq<T>, n: int)
        requires
            self.wf(n),
            0 < self.pending().len() < n,
        ensures
            self.flush().send(items, n).flush().run(n) <= self.published().len()
                + self.pending().len(),
    {
        let w = self.write_line();
        let first = self.flush();
        let second = first.send(items, n);
        let last = second.flush();
        self.lemma_starts_ordered(0, w, n);
        self.law_flush(n);
        first.law_send(items, n);
        second.law_flush(n);
        assert(first.starts[w] == self.starts[w] && first.starts[w + 1] == self.messages.len());
        assert(second.starts[w] == first.starts[w] && second.starts[w + 1] == first.starts[w + 1]);
        assert(last.starts[w] == second.starts[w] && last.starts[w + 1] == second.starts[w + 1]);
        last.law_run_stops_at_part_filled_line(w, n);
    }
}

} // verus!
