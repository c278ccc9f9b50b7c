//! What holds of the queue as a whole.

use lamellae::buffer;
use lamellae::buffer::Buffer;
use lamellae::consumer;
use lamellae::consumer::Consumer;
use lamellae::producer;
use lamellae::producer::Producer;
use lamellae::slot_ptr::SlotPtr;

type Queue = (Buffer<u32, 4>, Producer<u32, 4>, Consumer<u32, 4>);

/// Four lines of four slots.
fn queue() -> Queue {
    Buffer::with_capacity(16)
}

/// How many messages can be sent one by one.
fn room(tx: &mut Producer<u32, 4>, buffer: &mut Buffer<u32, 4>) -> usize {
    let mut sent = 0;
    while tx.try_send(buffer, 0).is_ok() {
        sent += 1;
    }
    sent
}

/// Everything that can be received one by one.
fn drain(rx: &mut Consumer<u32, 4>, buffer: &mut Buffer<u32, 4>) -> Vec<u32> {
    let mut received = Vec::new();
    while let Ok(value) = rx.try_recv(buffer) {
        received.push(value);
    }
    received
}

#[test]
fn lines_become_visible_when_they_are_left() {
    let (mut buffer, mut tx, mut rx) = Buffer::<u64, 8>::with_capacity(1024);
    for i in 0..8 {
        assert!(tx.try_send(&mut buffer, i).is_ok());
    }
    assert!(rx.try_recv(&mut buffer).is_err());
    assert!(tx.try_send(&mut buffer, 8).is_ok());
    for i in 0..8 {
        assert_eq!(rx.try_recv(&mut buffer), Ok(i));
    }
    assert!(rx.try_recv(&mut buffer).is_err());
}

#[test]
fn a_flush_makes_pending_messages_visible() {
    let (mut buffer, mut tx, mut rx) = Buffer::<u64, 8>::with_capacity(1024);
    assert!(tx.try_send(&mut buffer, 1).is_ok());
    assert!(rx.try_recv(&mut buffer).is_err());
    assert!(tx.flush(&mut buffer).is_ok());
    assert_eq!(rx.try_recv(&mut buffer), Ok(1));
}

#[test]
fn messages_come_out_in_the_order_they_went_in() {
    let (mut buffer, mut tx, mut rx) = queue();
    let mut next_in: u32 = 0;
    let mut next_out: u32 = 0;
    for round in 0..500 {
        for _ in 0..(round * 7) % 11 {
            if tx.try_send(&mut buffer, next_in).is_ok() {
                next_in += 1;
            }
        }
        if round % 3 == 0 {
            let _ = tx.flush(&mut buffer);
        }
        if round % 4 == 1 {
            let batch = [next_in, next_in + 1, next_in + 2];
            if let Ok(count) = tx.try_send_batch(&mut buffer, &batch) {
                next_in += count as u32;
            }
        }
        for _ in 0..(round * 5) % 9 {
            if let Ok(value) = rx.try_recv(&mut buffer) {
                assert_eq!(value, next_out);
                next_out += 1;
            }
        }
        if round % 5 == 2 {
            let mut batch = [0; 3];
            if let Ok(count) = rx.try_recv_batch(&mut buffer, &mut batch) {
                for value in &batch[..count] {
                    assert_eq!(*value, next_out);
                    next_out += 1;
                }
            }
        }
        if round % 7 == 3 {
            let mut batch = [0; 2];
            if let Ok(count) = rx.try_recv_batch_exact(&mut buffer, &mut batch) {
                assert_eq!(count, 2);
                assert_eq!(batch, [next_out, next_out + 1]);
                next_out += 2;
            }
        }
    }
    for value in drain(&mut rx, &mut buffer) {
        assert_eq!(value, next_out);
        next_out += 1;
    }
    assert!(tx.flush(&mut buffer).is_ok());
    for value in drain(&mut rx, &mut buffer) {
        assert_eq!(value, next_out);
        next_out += 1;
    }
    assert_eq!(next_in, next_out);
    assert!(next_in > 1000);
}

#[test]
fn an_alternating_sequence_arrives_complete() {
    let (mut buffer, mut tx, mut rx) = Buffer::<usize, 8>::with_capacity(1024);
    let mut expected = 0;
    for i in 0..100_000 {
        let mut value = i;
        while let Err((returned, _)) = tx.try_send(&mut buffer, value) {
            value = returned;
            assert_eq!(rx.recv(&mut buffer), expected);
            expected += 1;
        }
    }
    while tx.flush(&mut buffer).is_err() {
        assert_eq!(rx.recv(&mut buffer), expected);
        expected += 1;
    }
    while expected < 100_000 {
        assert_eq!(rx.recv(&mut buffer), expected);
        expected += 1;
    }
    assert!(rx.try_recv(&mut buffer).is_err());
}

#[test]
fn messages_are_moved_not_copied() {
    let (mut buffer, mut tx, mut rx) = Buffer::<String, 2>::with_capacity(8);
    tx.send(&mut buffer, String::from("one"));
    tx.send(&mut buffer, String::from("two"));
    tx.send(&mut buffer, String::from("three"));
    assert_eq!(rx.recv(&mut buffer), "one");
    assert_eq!(rx.recv(&mut buffer), "two");
    assert_eq!(rx.try_recv(&mut buffer), Err(consumer::Error::QueueEmpty));
    assert_eq!(tx.flush(&mut buffer), Ok(()));
    assert_eq!(rx.recv(&mut buffer), "three");
}

#[test]
fn one_line_is_never_available() {
    let (mut buffer, mut tx, _) = queue();
    assert_eq!(buffer.max_size(), 12);
    assert_eq!(room(&mut tx, &mut buffer), 12);
}

#[test]
fn a_batch_sends_what_its_parts_send() {
    let (mut whole, mut whole_tx, mut whole_rx) = queue();
    let (mut parts, mut parts_tx, mut parts_rx) = queue();
    assert_eq!(whole_tx.try_send_batch(&mut whole, &[1, 2, 3, 4, 5, 6]), Ok(6));
    assert_eq!(parts_tx.try_send_batch(&mut parts, &[1, 2]), Ok(2));
    assert_eq!(parts_tx.try_send_batch_exact(&mut parts, &[3, 4, 5]), Ok(3));
    assert!(parts_tx.try_send(&mut parts, 6).is_ok());
    assert_eq!(whole_tx.slot_ptr, SlotPtr::from((1, 2)));
    assert_eq!(whole_tx.slot_ptr, parts_tx.slot_ptr);
    assert_eq!(drain(&mut whole_rx, &mut whole), vec![1, 2, 3, 4]);
    assert_eq!(drain(&mut parts_rx, &mut parts), vec![1, 2, 3, 4]);
}

#[test]
fn a_batch_is_received_as_its_parts_are() {
    let (mut buffer, mut tx, mut rx) = queue();
    assert_eq!(tx.try_send_batch(&mut buffer, &[1, 2, 3, 4, 5, 6, 7, 8, 9]), Ok(9));
    let mut first = [0; 3];
    let mut second = [0; 5];
    assert_eq!(rx.try_recv_batch_exact(&mut buffer, &mut first), Ok(3));
    assert_eq!(rx.try_recv_batch_exact(&mut buffer, &mut second), Ok(5));
    assert_eq!(first, [1, 2, 3]);
    assert_eq!(second, [4, 5, 6, 7, 8]);
}

#[test]
fn a_batch_that_is_too_long_is_cut() {
    let (mut buffer, mut tx, mut rx) = queue();
    assert_eq!(tx.try_send_batch(&mut buffer, &[7; 20]), Ok(12));
    assert_eq!(tx.try_send_batch(&mut buffer, &[7; 20]), Err(producer::Error::QueueFull));
    let mut received = [0; 20];
    assert_eq!(rx.try_recv_batch(&mut buffer, &mut received), Ok(8));
    assert_eq!(received[..8], [7; 8]);
    assert_eq!(received[8..], [0; 12]);
    assert_eq!(rx.try_recv_batch(&mut buffer, &mut received), Err(consumer::Error::QueueEmpty));
}

#[test]
fn empty_batches_have_their_own_answers() {
    let (mut buffer, mut tx, mut rx) = queue();
    assert_eq!(tx.try_send_batch(&mut buffer, &[]), Err(producer::Error::QueueFull));
    assert_eq!(tx.try_send_batch_exact(&mut buffer, &[]), Ok(0));
    assert_eq!(rx.try_recv_batch(&mut buffer, &mut []), Err(consumer::Error::QueueEmpty));
    assert_eq!(rx.try_recv_batch_exact(&mut buffer, &mut []), Ok(0));
    assert_eq!(tx.slot_ptr, SlotPtr::from((0, 0)));
}

#[test]
fn an_empty_exact_batch_changes_nothing() {
    let (mut buffer, mut tx, mut rx) = queue();
    assert!(tx.try_send(&mut buffer, 1).is_ok());
    assert!(tx.flush(&mut buffer).is_ok());
    assert_eq!(tx.slot_ptr, SlotPtr::from((1, 0)));
    assert_eq!(tx.try_send_batch_exact(&mut buffer, &[]), Ok(0));
    assert_eq!(tx.slot_ptr, SlotPtr::from((1, 0)));
    assert_eq!(buffer.head, 1);
    let mut parts = (9, 9);
    let outcome = tx.try_send_exact_with(&mut buffer, 0, |s1, s2| {
        parts = (s1.len(), s2.len());
    });
    assert_eq!(outcome, Ok(0));
    assert_eq!(parts, (0, 0));
    assert_eq!(tx.slot_ptr, SlotPtr::from((1, 0)));
    assert_eq!(buffer.head, 1);
    assert_eq!(rx.try_recv(&mut buffer), Ok(1));
    assert_eq!(tx.try_send_batch_exact(&mut buffer, &[]), Ok(0));
    assert_eq!(rx.try_recv(&mut buffer), Err(consumer::Error::QueueEmpty));
}

#[test]
fn a_released_line_stays_visible_after_an_empty_exact_batch() {
    let (mut buffer, mut tx, mut rx) = Buffer::<usize, 8>::with_capacity(32);
    assert!(tx.try_send(&mut buffer, 1).is_ok());
    assert!(tx.flush(&mut buffer).is_ok());
    assert_eq!(tx.try_send_batch_exact(&mut buffer, &[]), Ok(0));
    assert_eq!(buffer.head, 1);
    assert_eq!(rx.try_recv(&mut buffer), Ok(1));
}

#[test]
fn a_batch_leaves_the_slots_that_its_sends_leave() {
    let (mut whole, mut whole_tx, mut whole_rx) = queue();
    let (mut parts, mut parts_tx, mut parts_rx) = queue();
    assert_eq!(whole_tx.try_send_batch(&mut whole, &[1; 12]), Ok(12));
    assert_eq!(parts_tx.try_send_batch(&mut parts, &[1; 12]), Ok(12));
    assert_eq!(whole_rx.try_recv_batch(&mut whole, &mut [0; 8]), Ok(8));
    assert_eq!(parts_rx.try_recv_batch(&mut parts, &mut [0; 8]), Ok(8));
    assert_eq!(whole_tx.try_send_batch(&mut whole, &[2, 3, 4, 5, 6, 7]), Ok(6));
    for value in 2..8 {
        assert!(parts_tx.try_send(&mut parts, value).is_ok());
    }
    assert_eq!(whole.slots, parts.slots);
    assert_eq!(whole.head, parts.head);
    assert_eq!(whole_tx.slot_ptr, parts_tx.slot_ptr);
}

#[test]
fn send_and_recv_leave_what_one_attempt_leaves() {
    let (mut one, mut one_tx, mut one_rx) = queue();
    let (mut other, mut other_tx, mut other_rx) = queue();
    for value in 0..5 {
        one_tx.send(&mut one, value);
        assert!(other_tx.try_send(&mut other, value).is_ok());
        assert_eq!(one.slots, other.slots);
        assert_eq!(one_tx.slot_ptr, other_tx.slot_ptr);
    }
    for value in 0..4 {
        assert_eq!(one_rx.recv(&mut one), value);
        assert_eq!(other_rx.try_recv(&mut other), Ok(value));
        assert_eq!(one.slots, other.slots);
        assert_eq!(one.tail, other.tail);
        assert_eq!(one_rx.slot_ptr, other_rx.slot_ptr);
        assert_eq!(one_rx.cached_cl_write, other_rx.cached_cl_write);
    }
}

#[test]
fn receiving_a_batch_leaves_the_slots_alone() {
    let (mut buffer, mut tx, mut rx) = queue();
    assert_eq!(tx.try_send_batch(&mut buffer, &[1, 2, 3, 4, 5]), Ok(5));
    let slots = buffer.slots.clone();
    assert_eq!(rx.try_recv_batch(&mut buffer, &mut [0; 2]), Ok(2));
    let bound = rx.cached_cl_write;
    assert_eq!(bound, SlotPtr::from((0, 4)));
    assert_eq!(rx.try_recv_batch_exact(&mut buffer, &mut [0; 2]), Ok(2));
    assert_eq!(buffer.slots, slots);
    assert_eq!(rx.cached_cl_write, bound);
}

#[test]
fn a_flush_of_a_part_filled_line_leaves_its_end() {
    let (mut buffer, mut tx, _) = queue();
    assert_eq!(tx.try_send_batch(&mut buffer, &[1, 2]), Ok(2));
    let slots = buffer.slots.clone();
    assert_eq!(tx.flush(&mut buffer), Ok(()));
    assert_eq!(buffer.slots, slots);
    assert_eq!(buffer.interruptions.peek_next(), Some(SlotPtr::from((0, 2))));
    let (mut buffer, mut tx, _) = queue();
    assert_eq!(tx.try_send_batch(&mut buffer, &[1, 2, 3, 4]), Ok(4));
    assert_eq!(tx.flush(&mut buffer), Ok(()));
    assert_eq!(buffer.interruptions.peek_next(), None);
}

#[test]
fn exact_batches_can_be_too_large() {
    let (mut buffer, mut tx, mut rx) = queue();
    assert_eq!(
        tx.try_send_batch_exact(&mut buffer, &[0; 13]),
        Err(producer::Error::BatchTooLarge)
    );
    assert_eq!(
        tx.try_send_exact_with(&mut buffer, 13, |_, _| {}),
        Err(producer::Error::BatchTooLarge)
    );
    assert_eq!(
        rx.try_recv_batch_exact(&mut buffer, &mut [0; 13]),
        Err(consumer::Error::BatchTooLarge)
    );
    assert_eq!(
        rx.try_recv_batch_exact(&mut buffer, &mut [0; 12]),
        Err(consumer::Error::QueueEmpty)
    );
    assert_eq!(tx.try_send_batch_exact(&mut buffer, &[0; 12]), Ok(12));
    assert_eq!(
        tx.try_send_batch_exact(&mut buffer, &[0]),
        Err(producer::Error::QueueFull)
    );
}

#[test]
fn flushing_twice_is_flushing_once() {
    let (mut buffer, mut tx, mut rx) = queue();
    assert!(tx.try_send(&mut buffer, 5).is_ok());
    assert_eq!(tx.flush(&mut buffer), Ok(()));
    assert_eq!(tx.flush(&mut buffer), Ok(()));
    assert_eq!(tx.slot_ptr, SlotPtr::from((1, 0)));
    assert_eq!(drain(&mut rx, &mut buffer), vec![5]);
}

#[test]
fn flushing_nothing_does_nothing() {
    let (mut buffer, mut tx, mut rx) = queue();
    assert_eq!(tx.flush(&mut buffer), Ok(()));
    assert_eq!(tx.slot_ptr, SlotPtr::from((0, 0)));
    assert_eq!(buffer.head, 0);
    assert!(rx.try_recv(&mut buffer).is_err());
}

#[test]
fn a_flush_costs_the_rest_of_the_line() {
    let (mut buffer, mut tx, _) = queue();
    assert!(tx.try_send(&mut buffer, 5).is_ok());
    assert_eq!(tx.flush(&mut buffer), Ok(()));
    assert_eq!(room(&mut tx, &mut buffer), 8);
}

#[test]
fn a_flush_needs_a_free_line() {
    let (mut buffer, mut tx, mut rx) = queue();
    assert_eq!(tx.try_send_batch(&mut buffer, &[1; 9]), Ok(9));
    assert_eq!(tx.flush(&mut buffer), Err(producer::Error::QueueFull));
    assert_eq!(rx.try_recv(&mut buffer), Ok(1));
    assert_eq!(tx.flush(&mut buffer), Ok(()));
    assert_eq!(buffer.head, 3);
}

#[test]
fn receiving_makes_room_line_by_line() {
    let (mut buffer, mut tx, mut rx) = queue();
    assert_eq!(room(&mut tx, &mut buffer), 12);
    for _ in 0..4 {
        assert_eq!(rx.try_recv(&mut buffer), Ok(0));
    }
    assert_eq!(room(&mut tx, &mut buffer), 4);
    assert_eq!(rx.try_recv(&mut buffer), Ok(0));
    assert_eq!(room(&mut tx, &mut buffer), 4);
}

#[test]
fn a_run_ends_at_a_part_filled_line() {
    let (mut buffer, mut tx, mut rx) = queue();
    assert_eq!(tx.try_send_batch(&mut buffer, &[1, 2, 3, 4, 5, 6]), Ok(6));
    assert_eq!(tx.flush(&mut buffer), Ok(()));
    assert_eq!(rx.try_recv(&mut buffer), Ok(1));
    assert_eq!(tx.try_send_batch(&mut buffer, &[7, 8]), Ok(2));
    assert_eq!(tx.flush(&mut buffer), Ok(()));
    let mut received = [0; 12];
    assert_eq!(rx.try_recv_batch(&mut buffer, &mut received), Ok(5));
    assert_eq!(received[..5], [2, 3, 4, 5, 6]);
    assert_eq!(rx.try_recv_batch(&mut buffer, &mut received), Ok(2));
    assert_eq!(received[..2], [7, 8]);
}

#[test]
fn full_lines_make_one_run() {
    let (mut buffer, mut tx, mut rx) = queue();
    assert_eq!(tx.try_send_batch(&mut buffer, &[1, 2, 3, 4, 5, 6, 7, 8]), Ok(8));
    assert_eq!(tx.flush(&mut buffer), Ok(()));
    let mut received = [0; 8];
    assert_eq!(rx.try_recv_batch_exact(&mut buffer, &mut received), Ok(8));
    assert_eq!(received, [1, 2, 3, 4, 5, 6, 7, 8]);
}

#[test]
fn runs_wrap_around_the_ring() {
    let (mut buffer, mut tx, mut rx) = queue();
    assert_eq!(tx.try_send_batch(&mut buffer, &[0; 12]), Ok(12));
    assert_eq!(tx.flush(&mut buffer), Err(producer::Error::QueueFull));
    let mut received = [9; 8];
    assert_eq!(rx.try_recv_batch_exact(&mut buffer, &mut received), Ok(8));
    assert_eq!(tx.try_send_batch_exact(&mut buffer, &[1, 2, 3, 4, 5, 6, 7, 8]), Ok(8));
    assert_eq!(tx.slot_ptr, SlotPtr::from((0, 4)));
    assert_eq!(tx.flush(&mut buffer), Err(producer::Error::QueueFull));
    let mut rest = [9; 8];
    assert_eq!(rx.try_recv_batch(&mut buffer, &mut rest), Ok(8));
    assert_eq!(rest, [0, 0, 0, 0, 1, 2, 3, 4]);
    assert_eq!(tx.flush(&mut buffer), Ok(()));
    assert_eq!(drain(&mut rx, &mut buffer), vec![5, 6, 7, 8]);
}

#[test]
fn a_refused_exact_batch_leaves_a_part_filled_line_behind() {
    let (mut buffer, mut tx, mut rx) = queue();
    assert!(tx.try_send(&mut buffer, 1).is_ok());
    assert_eq!(tx.flush(&mut buffer), Ok(()));
    assert!(tx.try_send(&mut buffer, 2).is_ok());
    assert_eq!(tx.flush(&mut buffer), Ok(()));
    assert_eq!(rx.try_recv(&mut buffer), Ok(1));
    assert_eq!(rx.slot_ptr, SlotPtr::from((0, 1)));
    let mut received = [9; 3];
    assert_eq!(
        rx.try_recv_batch_exact(&mut buffer, &mut received),
        Err(consumer::Error::QueueEmpty)
    );
    assert_eq!(received, [9; 3]);
    assert_eq!(rx.slot_ptr, SlotPtr::from((1, 0)));
    assert_eq!(buffer.tail, 0);
    assert_eq!(drain(&mut rx, &mut buffer), vec![2]);
}

#[test]
fn filling_slots_in_place_sends_what_was_put_there() {
    let (mut buffer, mut tx, mut rx) = queue();
    let mut parts = (9, 9);
    let outcome = tx.try_send_with(&mut buffer, 5, |s1, s2| {
        parts = (s1.len(), s2.len());
        for (i, slot) in s1.iter_mut().enumerate() {
            *slot = Some(10 + i as u32);
        }
    });
    assert_eq!(outcome, Ok(5));
    assert_eq!(parts, (5, 0));
    assert_eq!(drain(&mut rx, &mut buffer), vec![10, 11, 12, 13]);
}

#[test]
fn slots_to_fill_come_in_two_parts_at_the_end_of_the_ring() {
    let (mut buffer, mut tx, mut rx) = queue();
    assert_eq!(tx.try_send_batch(&mut buffer, &[0; 12]), Ok(12));
    assert_eq!(rx.try_recv_batch(&mut buffer, &mut [0; 8]), Ok(8));
    let mut parts = (9, 9);
    let outcome = tx.try_send_exact_with(&mut buffer, 6, |s1, s2| {
        parts = (s1.len(), s2.len());
        for (i, slot) in s1.iter_mut().enumerate() {
            *slot = Some(10 + i as u32);
        }
        for (i, slot) in s2.iter_mut().enumerate() {
            *slot = Some(20 + i as u32);
        }
    });
    assert_eq!(outcome, Ok(6));
    assert_eq!(parts, (4, 2));
    assert_eq!(tx.slot_ptr, SlotPtr::from((0, 2)));
    assert_eq!(drain(&mut rx, &mut buffer), vec![0, 0, 0, 0, 10, 11, 12, 13]);
    assert_eq!(tx.flush(&mut buffer), Ok(()));
    assert_eq!(drain(&mut rx, &mut buffer), vec![20, 21]);
}

#[test]
fn filling_in_place_is_cut_to_the_room_there_is() {
    let (mut buffer, mut tx, _) = queue();
    let fill = |s1: &mut [Option<u32>], s2: &mut [Option<u32>]| {
        for slot in s1.iter_mut().chain(s2.iter_mut()) {
            *slot = Some(1);
        }
    };
    assert_eq!(tx.try_send_with(&mut buffer, 0, fill), Err(producer::Error::QueueFull));
    assert_eq!(tx.try_send_with(&mut buffer, 100, fill), Ok(12));
    assert_eq!(tx.try_send_with(&mut buffer, 1, fill), Err(producer::Error::QueueFull));
    assert_eq!(tx.try_send_exact_with(&mut buffer, 1, fill), Err(producer::Error::QueueFull));
}

#[test]
fn distances_go_forward_around_the_ring() {
    let (buffer, _, _) = queue();
    let dist = |lo: (usize, usize), hi: (usize, usize)| {
        buffer.flat_dist(SlotPtr::from(lo), SlotPtr::from(hi))
    };
    assert_eq!(dist((0, 0), (1, 2)), 6);
    assert_eq!(dist((1, 2), (0, 0)), 10);
    assert_eq!(dist((3, 4), (0, 0)), 0);
    assert_eq!(dist((2, 4), (3, 0)), 0);
}

#[test]
fn pointers_advance_lazily() {
    let (buffer, _, _) = queue();
    let advanced = |from: (usize, usize), by: usize| {
        let mut ptr = SlotPtr::from(from);
        buffer.advance_slot_ptr(&mut ptr, by);
        ptr
    };
    assert_eq!(advanced((0, 0), 0), SlotPtr::from((0, 0)));
    assert_eq!(advanced((0, 0), 4), SlotPtr::from((0, 4)));
    assert_eq!(advanced((0, 0), 5), SlotPtr::from((1, 1)));
    assert_eq!(advanced((3, 2), 2), SlotPtr::from((3, 4)));
    assert_eq!(advanced((3, 2), 3), SlotPtr::from((0, 1)));
    assert_eq!(advanced((2, 0), 0), SlotPtr::from((1, 4)));
}

#[test]
fn slices_split_at_the_end_of_the_ring() {
    let (mut buffer, mut tx, _) = queue();
    assert_eq!(tx.try_send_batch(&mut buffer, &[1, 2, 3, 4, 5, 6]), Ok(6));
    let (first, second) = buffer.as_slice(SlotPtr::from((1, 0)), 2);
    assert_eq!(first, [Some(5), Some(6)]);
    assert_eq!(second, []);
    let (first, second) = buffer.as_slice(SlotPtr::from((3, 2)), 4);
    assert_eq!(first, [None, None]);
    assert_eq!(second, [Some(1), Some(2)]);
    {
        let (first, second) = buffer.as_slice_mut(SlotPtr::from((3, 3)), 2);
        assert_eq!((first.len(), second.len()), (1, 1));
        first[0] = Some(70);
        second[0] = Some(80);
    }
    assert_eq!(buffer.slots[15], Some(70));
    assert_eq!(buffer.slots[0], Some(80));
    assert_eq!(buffer.slots[1], Some(2));
}

#[test]
fn batch_sizes_are_cut_or_refused() {
    assert_eq!(buffer::clamp_batch_size(5, 3, 4, "none"), Ok(3));
    assert_eq!(buffer::clamp_batch_size(5, 9, 4, "none"), Ok(4));
    assert_eq!(buffer::clamp_batch_size(5, 9, 7, "none"), Ok(5));
    assert_eq!(buffer::clamp_batch_size(5, 9, 0, "none"), Err("none"));
    assert_eq!(buffer::clamp_batch_size(0, 9, 9, "none"), Err("none"));
    assert_eq!(buffer::validate_exact_batch_size(5, 3, 9, "none", "large"), Err("large"));
    assert_eq!(buffer::validate_exact_batch_size(5, 9, 4, "none", "large"), Err("none"));
    assert_eq!(buffer::validate_exact_batch_size(5, 9, 5, "none", "large"), Ok(5));
    assert_eq!(buffer::validate_exact_batch_size(0, 9, 0, "none", "large"), Ok(0));
}

#[test]
fn the_producer_looks_at_the_consumer_only_when_it_has_to() {
    let (mut buffer, mut tx, mut rx) = queue();
    assert_eq!(tx.cached_cl_read, SlotPtr::from((3, 4)));
    for value in 0..5 {
        tx.send(&mut buffer, value);
    }
    assert_eq!(rx.try_recv(&mut buffer), Ok(0));
    assert_eq!(buffer.tail, 0);
    for value in 5..9 {
        assert!(tx.try_send(&mut buffer, value).is_ok());
    }
    assert_eq!(tx.cached_cl_read, SlotPtr::from((3, 4)));
    for value in 9..13 {
        assert!(tx.try_send(&mut buffer, value).is_ok());
    }
    assert_eq!(tx.slot_ptr, SlotPtr::from((3, 1)));
    assert_eq!(tx.cached_cl_read, SlotPtr::from((0, 4)));
    assert_eq!(tx.flush(&mut buffer), Err(producer::Error::QueueFull));
    assert_eq!(tx.cached_cl_read, SlotPtr::from((0, 4)));
    assert_eq!(rx.try_recv_batch(&mut buffer, &mut [0; 4]), Ok(4));
    assert_eq!(tx.cached_cl_read, SlotPtr::from((0, 4)));
    assert_eq!(tx.try_send_batch_exact(&mut buffer, &[]), Ok(0));
    assert_eq!(tx.cached_cl_read, SlotPtr::from((1, 4)));
}

#[test]
fn slots_to_fill_come_as_they_are() {
    let (mut buffer, mut tx, mut rx) = queue();
    assert_eq!(tx.try_send_batch(&mut buffer, &[1, 2, 3, 4, 5, 6, 7, 8, 9, 10, 11, 12]), Ok(12));
    assert_eq!(rx.try_recv_batch(&mut buffer, &mut [0; 8]), Ok(8));
    let mut found = (Vec::new(), Vec::new());
    let outcome = tx.try_send_exact_with(&mut buffer, 6, |s1, s2| {
        found = (s1.to_vec(), s2.to_vec());
        for slot in s1.iter_mut().chain(s2.iter_mut()) {
            *slot = Some(0);
        }
    });
    assert_eq!(outcome, Ok(6));
    assert_eq!(found, (vec![None; 4], vec![Some(1), Some(2)]));
}

#[test]
fn waiting_for_room_sends_once() {
    let (mut buffer, mut tx, mut rx) = queue();
    assert_eq!(tx.try_send_batch(&mut buffer, &[1; 12]), Ok(12));
    let slots = buffer.slots.clone();
    for _ in 0..3 {
        assert_eq!(tx.try_send(&mut buffer, 2), Err((2, producer::Error::QueueFull)));
        assert_eq!(tx.slot_ptr, SlotPtr::from((2, 4)));
        assert_eq!(buffer.slots, slots);
    }
    assert_eq!(rx.try_recv(&mut buffer), Ok(1));
    assert!(tx.try_send(&mut buffer, 2).is_ok());
    assert_eq!(tx.slot_ptr, SlotPtr::from((3, 1)));
    assert_eq!(drain(&mut rx, &mut buffer), vec![1; 11]);
    assert_eq!(tx.flush(&mut buffer), Ok(()));
    assert_eq!(drain(&mut rx, &mut buffer), vec![2]);
}
