//! Reservations.

use lamellae::buffer::Buffer;
use lamellae::consumer::Consumer;
use lamellae::producer::Producer;
use lamellae::reservation::RecvReservation;
use lamellae::reservation::SendReservation;
use lamellae::slot_ptr::SlotPtr;

type Queue = (Buffer<u32, 4>, Producer<u32, 4>, Consumer<u32, 4>);

/// Four lines of four slots.
fn queue() -> Queue {
    Buffer::with_capacity(16)
}

/// A queue with one full line to read, from slot 8 on, and the producer at slot
/// 12.
fn worn_queue() -> Queue {
    let (mut buffer, mut tx, mut rx) = queue();
    assert_eq!(tx.try_send_batch(&mut buffer, &[1, 2, 3, 4, 5, 6, 7, 8, 9, 10, 11, 12]), Ok(12));
    assert_eq!(rx.try_recv_batch(&mut buffer, &mut [0; 8]), Ok(8));
    (buffer, tx, rx)
}

#[test]
fn a_send_reservation_sends_what_was_put_in() {
    let (mut buffer, mut tx, mut rx) = queue();
    let mut reservation = SendReservation::new(&mut tx, &mut buffer, 6);
    assert_eq!(reservation.send(1), Some(()));
    assert_eq!(reservation.send(2), Some(()));
    assert_eq!(reservation.send_slice(&[3, 4, 5]), 3);
    reservation.finalize_reservation();
    assert_eq!(tx.slot_ptr, SlotPtr::from((1, 1)));
    assert_eq!(buffer.head, 1);
    let mut received = [0; 4];
    assert_eq!(rx.try_recv_batch_exact(&mut buffer, &mut received), Ok(4));
    assert_eq!(received, [1, 2, 3, 4]);
    assert_eq!(tx.flush(&mut buffer), Ok(()));
    assert_eq!(rx.try_recv(&mut buffer), Ok(5));
}

#[test]
fn a_send_reservation_ends() {
    let (mut buffer, mut tx, _) = queue();
    let mut reservation = SendReservation::new(&mut tx, &mut buffer, 3);
    assert_eq!(reservation.send_slice(&[1, 2, 3, 4, 5]), 3);
    assert_eq!(reservation.send_slice(&[6]), 0);
    assert_eq!(reservation.send(6), None);
    reservation.finalize_reservation();
    assert_eq!(tx.slot_ptr, SlotPtr::from((0, 3)));
}

#[test]
fn a_send_reservation_gets_the_room_there_is() {
    let (mut buffer, mut tx, _) = queue();
    let reservation = SendReservation::new(&mut tx, &mut buffer, 100);
    assert_eq!(reservation.total_reserved, 12);
    reservation.finalize_reservation();
    assert_eq!(tx.try_send_batch(&mut buffer, &[0; 12]), Ok(12));
    let mut reservation = SendReservation::new(&mut tx, &mut buffer, 1);
    assert_eq!(reservation.total_reserved, 0);
    assert_eq!(reservation.send(1), None);
    reservation.finalize_reservation();
    assert_eq!(tx.slot_ptr, SlotPtr::from((2, 4)));
}

#[test]
fn an_unused_send_reservation_changes_nothing() {
    let (mut buffer, mut tx, mut rx) = queue();
    assert!(tx.try_send(&mut buffer, 1).is_ok());
    assert_eq!(tx.flush(&mut buffer), Ok(()));
    let reservation = SendReservation::new(&mut tx, &mut buffer, 5);
    reservation.finalize_reservation();
    assert_eq!(tx.slot_ptr, SlotPtr::from((1, 0)));
    assert_eq!(rx.try_recv(&mut buffer), Ok(1));
}

#[test]
fn a_send_reservation_wraps_around_the_ring() {
    let (mut buffer, mut tx, mut rx) = worn_queue();
    let mut reservation = SendReservation::new(&mut tx, &mut buffer, 6);
    {
        let (first, second) = reservation.as_mut_slices();
        assert_eq!((first.len(), second.len()), (4, 2));
        first[0] = Some(99);
        second[1] = Some(99);
    }
    assert_eq!(reservation.send_slice(&[21, 22, 23]), 3);
    {
        let (first, second) = reservation.as_mut_slices();
        assert_eq!((first.len(), second.len()), (1, 2));
    }
    assert_eq!(reservation.send_slice(&[24, 25]), 2);
    {
        let (first, second) = reservation.as_mut_slices();
        assert_eq!((first.len(), second.len()), (0, 1));
        assert_eq!(second[0], Some(99));
    }
    assert_eq!(reservation.send(26), Some(()));
    assert_eq!(reservation.send(27), None);
    reservation.finalize_reservation();
    assert_eq!(tx.slot_ptr, SlotPtr::from((0, 2)));
    let mut received = [0; 8];
    assert_eq!(rx.try_recv_batch(&mut buffer, &mut received), Ok(8));
    assert_eq!(received, [9, 10, 11, 12, 21, 22, 23, 24]);
    assert_eq!(tx.flush(&mut buffer), Ok(()));
    assert_eq!(rx.recv(&mut buffer), 25);
    assert_eq!(rx.recv(&mut buffer), 26);
}

#[test]
fn a_recv_reservation_takes_messages_in_order() {
    let (mut buffer, mut tx, mut rx) = queue();
    assert_eq!(tx.try_send_batch(&mut buffer, &[1, 2, 3, 4, 5]), Ok(5));
    let mut reservation = RecvReservation::new(&mut rx, &mut buffer, 3);
    assert_eq!(reservation.total_reserved, 3);
    assert_eq!(reservation.recv(), Some(1));
    let mut rest = [0; 4];
    assert_eq!(reservation.recv_slice(&mut rest), 2);
    assert_eq!(rest, [2, 3, 0, 0]);
    assert_eq!(reservation.recv(), None);
    reservation.finalize_reservation();
    assert_eq!(rx.slot_ptr, SlotPtr::from((0, 3)));
    assert_eq!(buffer.tail, 0);
    assert_eq!(rx.try_recv(&mut buffer), Ok(4));
    assert!(rx.try_recv(&mut buffer).is_err());
}

#[test]
fn messages_that_were_not_taken_stay() {
    let (mut buffer, mut tx, mut rx) = queue();
    assert_eq!(tx.try_send_batch(&mut buffer, &[1, 2, 3, 4, 5]), Ok(5));
    let reservation = RecvReservation::new(&mut rx, &mut buffer, 4);
    let (first, second) = reservation.as_slices();
    assert_eq!(first, []);
    assert_eq!(second, [Some(1), Some(2), Some(3), Some(4)]);
    reservation.finalize_reservation();
    let mut reservation = RecvReservation::new(&mut rx, &mut buffer, 4);
    assert_eq!(reservation.recv(), Some(1));
    reservation.finalize_reservation();
    assert_eq!(rx.try_recv(&mut buffer), Ok(2));
}

#[test]
fn a_recv_reservation_covers_one_run() {
    let (mut buffer, mut tx, mut rx) = queue();
    let reservation = RecvReservation::new(&mut rx, &mut buffer, 10);
    assert_eq!(reservation.total_reserved, 0);
    reservation.finalize_reservation();
    assert_eq!(tx.try_send_batch(&mut buffer, &[1, 2]), Ok(2));
    assert_eq!(tx.flush(&mut buffer), Ok(()));
    assert_eq!(tx.try_send_batch(&mut buffer, &[3]), Ok(1));
    assert_eq!(tx.flush(&mut buffer), Ok(()));
    let mut reservation = RecvReservation::new(&mut rx, &mut buffer, 10);
    let mut received = [0; 10];
    assert_eq!(reservation.recv_slice(&mut received), 2);
    reservation.finalize_reservation();
    assert_eq!(received[..3], [1, 2, 0]);
    let mut reservation = RecvReservation::new(&mut rx, &mut buffer, 10);
    assert_eq!(reservation.recv(), Some(3));
    assert_eq!(reservation.recv(), None);
    reservation.finalize_reservation();
    assert!(rx.try_recv(&mut buffer).is_err());
}

#[test]
fn a_recv_reservation_wraps_around_the_ring() {
    let (mut buffer, mut tx, mut rx) = worn_queue();
    assert_eq!(tx.try_send_batch(&mut buffer, &[21, 22, 23, 24, 25, 26, 27, 28]), Ok(8));
    let mut taken = [0; 6];
    assert_eq!(rx.try_recv_batch_exact(&mut buffer, &mut taken), Ok(6));
    assert_eq!(taken, [9, 10, 11, 12, 21, 22]);
    assert_eq!(tx.flush(&mut buffer), Ok(()));
    let mut reservation = RecvReservation::new(&mut rx, &mut buffer, 100);
    assert_eq!(reservation.total_reserved, 6);
    let (first, second) = reservation.as_slices();
    assert_eq!(first, [Some(23), Some(24)]);
    assert_eq!(second, [Some(25), Some(26), Some(27), Some(28)]);
    let mut received = [0; 3];
    assert_eq!(reservation.recv_slice(&mut received), 3);
    assert_eq!(received, [23, 24, 25]);
    assert_eq!(reservation.recv(), Some(26));
    let (first, second) = reservation.as_slices();
    assert_eq!(first, []);
    assert_eq!(second, [Some(27), Some(28)]);
    reservation.finalize_reservation();
    assert_eq!(rx.slot_ptr, SlotPtr::from((0, 2)));
    assert_eq!(buffer.tail, 0);
    assert_eq!(rx.try_recv(&mut buffer), Ok(27));
}
