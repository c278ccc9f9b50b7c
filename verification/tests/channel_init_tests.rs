//! Making queues.

use lamellae::buffer::Buffer;
use lamellae::channel;
use lamellae::channel::ChannelError;
use lamellae::consumer::Consumer;
use lamellae::producer;
use lamellae::producer::Producer;
use lamellae::slot_ptr::SlotPtr;

#[test]
fn test_compile_errors() {
    struct ZST();
    let refused = channel::channel::<ZST, 1>(5);
    assert_eq!(refused.err(), Some(ChannelError::ZeroSizedElement));
}

#[test]
fn test_init_success() {
    let made = channel::channel::<u64, 8>(32);
    assert!(made.is_ok());
}

#[test]
fn an_element_larger_than_a_line_is_refused() {
    assert_eq!(channel::elements_per_cache_line(65, 64), Err(ChannelError::ElementTooLarge));
    assert_eq!(channel::elements_per_cache_line(64, 4), Ok(1));
    let refused = channel::channel::<[u8; 65], 1>(64);
    assert_eq!(refused.err(), Some(ChannelError::ElementTooLarge));
}

#[test]
fn a_capacity_that_is_no_power_of_two_is_refused() {
    assert_eq!(channel::elements_per_cache_line(8, 33), Err(ChannelError::CapacityNotPowerOfTwo));
    assert_eq!(channel::elements_per_cache_line(8, 48), Err(ChannelError::CapacityNotPowerOfTwo));
    assert_eq!(channel::elements_per_cache_line(8, 0), Err(ChannelError::CapacityNotPowerOfTwo));
    let refused = channel::channel::<u64, 8>(48);
    assert_eq!(refused.err(), Some(ChannelError::CapacityNotPowerOfTwo));
}

#[test]
fn a_capacity_below_four_lines_is_refused() {
    assert_eq!(channel::elements_per_cache_line(8, 16), Err(ChannelError::CapacityTooSmall));
    assert_eq!(channel::elements_per_cache_line(8, 1), Err(ChannelError::CapacityTooSmall));
    assert_eq!(channel::elements_per_cache_line(1, 128), Err(ChannelError::CapacityTooSmall));
    let refused = channel::channel::<u64, 8>(16);
    assert_eq!(refused.err(), Some(ChannelError::CapacityTooSmall));
}

#[test]
fn the_first_thing_wrong_is_told() {
    assert_eq!(channel::elements_per_cache_line(100, 3), Err(ChannelError::ElementTooLarge));
    assert_eq!(channel::elements_per_cache_line(0, 3), Err(ChannelError::ZeroSizedElement));
}

#[test]
fn elements_per_cache_line_rounds_down() {
    assert_eq!(channel::elements_per_cache_line(8, 32), Ok(8));
    assert_eq!(channel::elements_per_cache_line(12, 32), Ok(5));
    assert_eq!(channel::elements_per_cache_line(1, 256), Ok(64));
    assert_eq!(channel::elements_per_cache_line(33, 4), Ok(1));
}

#[test]
fn a_new_queue_is_laid_out() {
    let (buffer, tx, rx) = channel::channel::<u64, 8>(1024).unwrap();
    assert_eq!(buffer.capacity, 1024);
    assert_eq!(buffer.cl_mask, 127);
    assert_eq!(buffer.slots.len(), 1024);
    assert_eq!(buffer.head, 0);
    assert_eq!(buffer.tail, 127);
    assert_eq!(tx.slot_ptr, SlotPtr::from((0, 0)));
    assert_eq!(tx.cached_cl_read, SlotPtr::from((127, 8)));
    assert_eq!(rx.slot_ptr, SlotPtr::from((127, 8)));
    assert_eq!(rx.cached_cl_write, SlotPtr::from((127, 8)));
}

#[test]
fn a_single_line_holds_what_it_has_room_for() {
    let (mut buffer, mut tx, mut rx): (Buffer<u8, 4>, Producer<u8, 4>, Consumer<u8, 4>) =
        Buffer::with_capacity(4);
    for i in 0..4 {
        assert!(tx.try_send(&mut buffer, i).is_ok());
    }
    assert_eq!(tx.try_send(&mut buffer, 4), Err((4, producer::Error::QueueFull)));
    assert_eq!(tx.flush(&mut buffer), Err(producer::Error::QueueFull));
    assert!(rx.try_recv(&mut buffer).is_err());
}

#[test]
fn a_new_queue_is_laid_out_for_any_line() {
    let (buffer, tx, rx) = channel::channel::<[u8; 12], 5>(32).unwrap();
    assert_eq!(buffer.capacity, 32);
    assert_eq!(buffer.cl_mask, 5);
    assert_eq!(buffer.slots, vec![None; 30]);
    assert_eq!(buffer.head, 0);
    assert_eq!(buffer.tail, 5);
    assert_eq!(buffer.interruptions.peek_next(), None);
    assert_eq!(tx.slot_ptr, SlotPtr::from((0, 0)));
    assert_eq!(tx.cached_cl_read, SlotPtr::from((5, 5)));
    assert_eq!(rx.slot_ptr, SlotPtr::from((5, 5)));
    assert_eq!(rx.cached_cl_write, SlotPtr::from((5, 5)));
}
