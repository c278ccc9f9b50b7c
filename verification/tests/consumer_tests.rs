//! Where the consumer stands.

use lamellae::buffer::Buffer;
use lamellae::channel;
use lamellae::consumer::Consumer;
use lamellae::consumer::Error;
use lamellae::producer::Producer;

const CL_CAPACITY: usize = 8;
const TOTAL_CAPACITY: usize = 4 * CL_CAPACITY;

type TestMessage = usize;

fn queue() -> (Buffer<TestMessage, CL_CAPACITY>, Producer<TestMessage, CL_CAPACITY>, Consumer<TestMessage, CL_CAPACITY>) {
    channel::channel(TOTAL_CAPACITY).unwrap()
}

#[test]
fn test_written_slots_one_cl() {
    let (mut buffer, mut tx, mut rx) = queue();

    let mut buf = [0usize; CL_CAPACITY];
    assert_eq!(rx.try_recv_batch(&mut buffer, &mut buf), Err(Error::QueueEmpty));

    assert!(tx.try_send_batch(&mut buffer, &[0; CL_CAPACITY]).is_ok());
    assert!(tx.flush(&mut buffer).is_ok());

    assert_eq!(rx.try_recv_batch(&mut buffer, &mut buf), Ok(CL_CAPACITY));
}

#[test]
fn test_written_slots_mul_cl() {
    let (mut buffer, mut tx, mut rx) = queue();

    assert!(tx.try_send_batch(&mut buffer, &[0; CL_CAPACITY / 2]).is_ok());
    assert!(tx.flush(&mut buffer).is_ok());
    assert!(tx.try_send_batch(&mut buffer, &[0; CL_CAPACITY / 2]).is_ok());
    assert!(tx.flush(&mut buffer).is_ok());

    let mut buf = [0usize; CL_CAPACITY];
    assert_eq!(rx.try_recv_batch(&mut buffer, &mut buf), Ok(CL_CAPACITY / 2));
    assert_eq!(rx.try_recv_batch(&mut buffer, &mut buf), Ok(CL_CAPACITY / 2));
}

#[test]
fn test_batch_stops_at_interruption() {
    let (mut buffer, mut tx, mut rx) = queue();

    assert!(tx.try_send_batch(&mut buffer, &[0; CL_CAPACITY / 2]).is_ok());
    assert!(tx.flush(&mut buffer).is_ok());

    assert!(tx.try_send_batch(&mut buffer, &[0; CL_CAPACITY]).is_ok());
    assert!(tx.flush(&mut buffer).is_ok());

    let mut buf = [0usize; 2 * CL_CAPACITY];
    let received = rx
        .try_recv_batch(&mut buffer, &mut buf)
        .expect("batch should not be empty");
    assert_eq!(received, CL_CAPACITY / 2);
}

#[test]
fn consumer_test_wrapping_is_lazy() {
    let (mut buffer, mut tx, mut rx) = queue();

    assert!(tx.try_send_batch(&mut buffer, &[0; 2 * CL_CAPACITY]).is_ok());
    assert!(tx.flush(&mut buffer).is_ok());

    assert!(rx.try_recv_batch(&mut buffer, &mut [0; CL_CAPACITY]).is_ok());
    assert_eq!(rx.slot_ptr.cl_index, buffer.tail);
    let cl_index = rx.slot_ptr.cl_index;

    assert_eq!(rx.slot_ptr.cl_offset, CL_CAPACITY);
    assert!(rx.try_recv(&mut buffer).is_ok());
    assert_eq!(rx.slot_ptr.cl_index, cl_index + 1);
    assert_eq!(rx.slot_ptr.cl_index, buffer.tail);
    assert_eq!(rx.slot_ptr.cl_offset, 1);
}

#[test]
fn consumer_test_advance_cl_index_forward() {
    let (mut buffer, mut tx, mut rx) = queue();

    assert!(tx.try_send_batch(&mut buffer, &[0; 2 * CL_CAPACITY]).is_ok());
    assert!(tx.flush(&mut buffer).is_ok());

    assert!(rx.try_recv_batch(&mut buffer, &mut [0; CL_CAPACITY]).is_ok());
    let cl_index = rx.slot_ptr.cl_index;
    assert_eq!(rx.slot_ptr.cl_offset, CL_CAPACITY);
    assert!(rx.try_recv(&mut buffer).is_ok());
    assert_eq!(rx.slot_ptr.cl_index, cl_index + 1);
    assert_eq!(rx.slot_ptr.cl_index, 1);
}

#[test]
fn consumer_test_advance_cl_index_wrapping() {
    let (mut buffer, mut tx, mut rx) = queue();

    assert!(tx.try_send_batch(&mut buffer, &[0; 2 * CL_CAPACITY]).is_ok());
    assert!(tx.flush(&mut buffer).is_ok());

    let cl_index = rx.slot_ptr.cl_index;
    assert!(rx.try_recv_batch(&mut buffer, &mut [0; CL_CAPACITY]).is_ok());
    assert_ne!(rx.slot_ptr.cl_index, cl_index);
    assert!(rx.slot_ptr.cl_index < cl_index);
}

#[test]
fn consumer_test_advance_cl_offset_forward() {
    let (mut buffer, mut tx, mut rx) = queue();
    assert!(tx.try_send_batch(&mut buffer, &[0; 2 * CL_CAPACITY]).is_ok());
    assert!(tx.flush(&mut buffer).is_ok());

    assert!(rx.try_recv(&mut buffer).is_ok());
    let cl_index = rx.slot_ptr.cl_index;
    let cl_offset = rx.slot_ptr.cl_offset;
    assert!(rx.try_recv(&mut buffer).is_ok());

    assert_eq!(rx.slot_ptr.cl_index, cl_index);
    assert_eq!(rx.slot_ptr.cl_offset, cl_offset + 1);
}

#[test]
fn consumer_test_advance_cl_offset_wrapping() {
    let (mut buffer, mut tx, mut rx) = queue();
    assert!(tx.try_send_batch(&mut buffer, &[0; 2 * CL_CAPACITY]).is_ok());
    assert!(tx.flush(&mut buffer).is_ok());

    assert_eq!(rx.slot_ptr.cl_offset, CL_CAPACITY);
    assert!(rx.try_recv(&mut buffer).is_ok());
    assert_eq!(rx.slot_ptr.cl_offset, 1);
    assert_ne!(rx.slot_ptr.cl_offset, CL_CAPACITY);
}
