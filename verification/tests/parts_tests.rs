//! The parts that a queue is made of.

use lamellae::interruption_tracker::InterruptionTracker;
use lamellae::slot_ptr::SlotPtr;
use lamellae::slot_tracker::SlotTracker;
use lamellae::slot_tracker::Span;
use lamellae::spinlock::Spinlock;

type Tracker = SlotTracker<8>;

fn at(cl_index: usize, cl_offset: usize) -> SlotPtr {
    SlotPtr::from((cl_index, cl_offset))
}

#[test]
fn a_slot_pointer_can_be_set() {
    let mut ptr = at(1, 2);
    assert_eq!((ptr.cl_index, ptr.cl_offset), (1, 2));
    ptr.set(3, 4);
    assert_eq!(ptr, at(3, 4));
}

#[test]
fn interruptions_come_out_oldest_first() {
    let mut tracker = InterruptionTracker::new();
    assert_eq!(tracker.peek_next(), None);
    assert_eq!(tracker.pop_next(), None);
    tracker.push(at(0, 3));
    tracker.push(at(2, 1));
    assert_eq!(tracker.peek_next(), Some(at(0, 3)));
    assert_eq!(tracker.pop_next(), Some(at(0, 3)));
    assert_eq!(tracker.peek_next(), Some(at(2, 1)));
    assert_eq!(tracker.pop_next(), Some(at(2, 1)));
    assert_eq!(tracker.pop_next(), None);
    tracker.push(at(1, 1));
    assert_eq!(tracker.pop_next(), Some(at(1, 1)));
}

#[test]
fn waiting_gets_longer_up_to_a_limit() {
    let mut spinlock = Spinlock::new();
    let mut spins = Vec::new();
    let mut answers = Vec::new();
    for _ in 0..9 {
        spins.push(spinlock.spins());
        answers.push(spinlock.spin());
    }
    assert_eq!(spins, vec![1, 2, 4, 8, 16, 32, 64, 64, 64]);
    assert_eq!(answers, vec![true, true, true, true, true, true, false, false, false]);
}

#[test]
fn heavy_waiting_has_its_own_limit() {
    let mut spinlock = Spinlock::default();
    for i in 0..7 {
        assert!(!spinlock.yields());
        assert!(spinlock.spin_heavy(), "wait {}", i);
    }
    for _ in 7..12 {
        assert!(spinlock.yields());
        assert!(spinlock.spin_heavy());
    }
    assert!(!spinlock.spin_heavy());
    assert!(!spinlock.spin_heavy());
    assert!(spinlock.yields());
    assert_eq!(spinlock.spins(), 64);
}

#[test]
fn positions_survive_packing() {
    let word = Tracker::pack(at(5, 7));
    assert_eq!(word, 5 * 256 + 7);
    assert_eq!(Tracker::unpack(word), (5, 7));
    assert_eq!(Tracker::unpack(Tracker::pack(at(0, 255))), (0, 255));
}

#[test]
fn packing_cuts_the_offset() {
    assert_eq!(Tracker::pack(at(1, 256)), 256);
    assert_eq!(Tracker::pack(at(1, 300)), 256 + 44);
    assert_eq!(Tracker::pack(at(usize::MAX, 0)), usize::MAX - 255);
}

#[test]
fn a_new_tracker_has_one_empty_span() {
    let tracker = Tracker::new(16, 0, 0);
    assert_eq!(tracker.spans(), 1);
    assert_eq!(tracker.len(), 0);
    assert_eq!(tracker.next_used(at(0, 0)), 0);
    assert_eq!(tracker.occupied_in_cl(0), 0);
}

#[test]
fn slots_that_follow_extend_the_last_span() {
    let mut tracker = Tracker::new(16, 0, 0);
    tracker.mark_used(at(0, 0), at(0, 4));
    assert_eq!(tracker.spans(), 1);
    assert_eq!(tracker.next_used(at(0, 0)), 4);
    assert_eq!(tracker.next_used(at(0, 1)), 3);
    assert_eq!(tracker.next_free(at(0, 4)), 12);
    assert_eq!(tracker.occupied_in_cl(0), 4);
    assert_eq!(tracker.occupied_in_cl(1), 0);
}

#[test]
fn slots_that_do_not_follow_make_a_new_span() {
    let mut tracker = Tracker::new(32, 0, 0);
    tracker.mark_used(at(0, 0), at(0, 4));
    tracker.mark_used(at(1, 0), at(2, 2));
    assert_eq!(tracker.spans(), 2);
    assert_eq!(tracker.occupied_in_cl(0), 4);
    assert_eq!(tracker.occupied_in_cl(1), 8);
    assert_eq!(tracker.occupied_in_cl(2), 2);
    assert_eq!(tracker.occupied_in_cl(3), 0);
    assert_eq!(tracker.len(), 4 + 10 - 8);
}

#[test]
fn freeing_part_of_a_span_moves_its_start() {
    let mut tracker = Tracker::new(16, 0, 0);
    tracker.mark_used(at(0, 0), at(0, 4));
    tracker.mark_free(at(0, 2));
    assert_eq!(tracker.spans(), 1);
    assert_eq!(tracker.next_free(at(0, 4)), 14);
    assert_eq!(tracker.next_used(at(0, 2)), 2);
}

#[test]
fn the_only_span_stays_when_it_is_freed() {
    let mut tracker = Tracker::new(16, 0, 0);
    tracker.mark_used(at(0, 0), at(0, 4));
    tracker.mark_free(at(0, 4));
    assert_eq!(tracker.spans(), 1);
    assert_eq!(tracker.next_used(at(0, 4)), 0);
    assert_eq!(tracker.next_free(at(0, 4)), 0);
}

#[test]
fn the_next_span_follows_when_one_is_freed() {
    let mut tracker = Tracker::new(32, 0, 0);
    tracker.mark_used(at(0, 0), at(0, 4));
    tracker.mark_used(at(1, 0), at(1, 6));
    assert_eq!(tracker.spans(), 2);
    tracker.mark_free(at(0, 4));
    assert_eq!(tracker.spans(), 1);
    assert_eq!(tracker.next_used(at(1, 0)), 6);
    assert_eq!(tracker.next_free(at(1, 6)), 26);
}

#[test]
fn span_sizes_add_up() {
    let mut tracker = Tracker::new(64, 0, 0);
    tracker.mark_used(at(0, 0), at(2, 0));
    assert_eq!(tracker.len(), 16 - 8);
    tracker.mark_used(at(2, 0), at(3, 4));
    assert_eq!(tracker.spans(), 1);
    assert_eq!(tracker.len(), 28 - 8);
    tracker.mark_used(at(4, 0), at(5, 0));
    assert_eq!(tracker.spans(), 2);
    assert_eq!(tracker.len(), 36 - 8);
    tracker.mark_free(at(1, 0));
    assert_eq!(tracker.len(), 28 - 8);
    tracker.mark_free(at(3, 4));
    assert_eq!(tracker.spans(), 1);
    assert_eq!(tracker.len(), 0);
}

#[test]
fn spans_wrap_around_the_ring() {
    let span = Span::new(Tracker::pack(at(3, 4)), Tracker::pack(at(0, 2)));
    assert_eq!(span.len::<8>(31), 6);
    let mut tracker = Tracker::new(32, 3, 3);
    tracker.mark_used(at(3, 0), at(0, 2));
    assert_eq!(tracker.occupied_in_cl(3), 8);
    assert_eq!(tracker.occupied_in_cl(0), 2);
    assert_eq!(tracker.next_used(at(3, 0)), 10);
}
