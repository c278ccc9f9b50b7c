//! Where the producer stands.

use lamellae::buffer::Buffer;
use lamellae::channel;
use lamellae::consumer::Consumer;
use lamellae::producer::Producer;

const CL_CAPACITY: usize = 8;
const TOTAL_CAPACITY: usize = 4 * CL_CAPACITY;

type TestMessage = usize;

fn queue() -> (Buffer<TestMessage, CL_CAPACITY>, Producer<TestMessage, CL_CAPACITY>, Consumer<TestMessage, CL_CAPACITY>) {
    channel::channel(TOTAL_CAPACITY).unwrap()
}

#[test]
fn producer_test_wrapping_is_lazy() {
    let (mut buffer, mut tx, _) = queue();
    let cl_index = tx.slot_ptr.cl_index;

    assert!(tx.try_send_batch(&mut buffer, &[0; CL_CAPACITY]).is_ok());
    assert_eq!(tx.slot_ptr.cl_index, cl_index);
    assert_eq!(tx.slot_ptr.cl_index, buffer.head);
    assert_eq!(tx.slot_ptr.cl_offset, CL_CAPACITY);

    assert!(tx.try_send(&mut buffer, 7).is_ok());
    assert_eq!(tx.slot_ptr.cl_index, cl_index + 1);
    assert_eq!(tx.slot_ptr.cl_index, buffer.head);
    assert_eq!(tx.slot_ptr.cl_offset, 1);
}

#[test]
fn producer_test_advance_cl_index_forward() {
    let (mut buffer, mut tx, _) = queue();
    let cl_index = tx.slot_ptr.cl_index;

    assert_eq!(tx.slot_ptr.cl_index, buffer.head);
    assert!(tx.try_send_batch(&mut buffer, &[0; CL_CAPACITY + 1]).is_ok());
    assert_eq!(tx.slot_ptr.cl_index, cl_index + 1);
    assert_eq!(tx.slot_ptr.cl_index, buffer.head);
}

#[test]
fn producer_test_advance_cl_index_wrapping() {
    let (mut buffer, mut tx, mut rx) = queue();
    let last_cl_index = 3;

    tx.slot_ptr.set(last_cl_index, CL_CAPACITY);
    buffer.head = last_cl_index;

    rx.slot_ptr.set(last_cl_index - 1, CL_CAPACITY);
    buffer.tail = last_cl_index - 1;

    assert_eq!(tx.slot_ptr.cl_index, buffer.head);
    assert_eq!(tx.slot_ptr.cl_index, last_cl_index);
    assert!(tx.try_send(&mut buffer, 7).is_ok());
    assert_eq!(tx.slot_ptr.cl_index, buffer.head);
    assert_eq!(tx.slot_ptr.cl_index, 0);
}

#[test]
fn producer_test_advance_cl_offset_forward() {
    let (mut buffer, mut tx, _) = queue();
    let cl_index = tx.slot_ptr.cl_index;
    let cl_offset = tx.slot_ptr.cl_offset;

    assert!(tx.try_send(&mut buffer, 7).is_ok());
    assert_eq!(tx.slot_ptr.cl_index, cl_index);
    assert_eq!(tx.slot_ptr.cl_offset, cl_offset + 1);
}

#[test]
fn producer_test_advance_cl_offset_wrapping() {
    let (mut buffer, mut tx, _) = queue();
    let cl_index = tx.slot_ptr.cl_index;

    assert!(tx.try_send_batch(&mut buffer, &[0; CL_CAPACITY]).is_ok());
    assert_eq!(tx.slot_ptr.cl_index, cl_index);
    assert_eq!(tx.slot_ptr.cl_offset, CL_CAPACITY);

    assert!(tx.try_send(&mut buffer, 7).is_ok());
    assert_eq!(tx.slot_ptr.cl_index, cl_index + 1);
    assert_eq!(tx.slot_ptr.cl_offset, 1);
}
