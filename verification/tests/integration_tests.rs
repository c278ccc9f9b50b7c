//! Sending and receiving, seen from outside.

use lamellae::buffer::Buffer;
use lamellae::channel;
use lamellae::consumer;
use lamellae::consumer::Consumer;
use lamellae::producer;
use lamellae::producer::Producer;

/// the capacity of `TestMessage`s per cache line
const CL_CAPACITY: usize = 8;
const TOTAL_CAPACITY: usize = 4 * CL_CAPACITY;
const MAX_WRITEABLE_SLOTS: usize = TOTAL_CAPACITY - CL_CAPACITY;

type TestMessage = usize;

fn queue() -> (Buffer<TestMessage, CL_CAPACITY>, Producer<TestMessage, CL_CAPACITY>, Consumer<TestMessage, CL_CAPACITY>) {
    channel::channel(TOTAL_CAPACITY).unwrap()
}

fn assert_send<T: Send>(_: &T) {}

#[test]
fn test_producer_is_send() {
    let (_, tx, _) = queue();
    assert_send(&tx);
}

#[test]
fn test_consumer_is_send() {
    let (_, _, rx) = queue();
    assert_send(&rx);
}

#[test]
fn test_try_send_recv_lazy_wrap() {
    let (mut buffer, mut tx, mut rx) = queue();

    for i in 0..CL_CAPACITY {
        assert!(tx.try_send(&mut buffer, i).is_ok());
    }

    assert!(rx.try_recv(&mut buffer).is_err());
    assert!(tx.try_send(&mut buffer, 0).is_ok());

    for i in 0..CL_CAPACITY {
        assert_eq!(Ok(i), rx.try_recv(&mut buffer));
    }
}

#[test]
fn test_try_send_recv_flush() {
    const MESSAGE: usize = 49;
    let (mut buffer, mut tx, mut rx) = queue();

    assert!(tx.try_send(&mut buffer, MESSAGE).is_ok());
    assert!(rx.try_recv(&mut buffer).is_err());
    assert!(tx.flush(&mut buffer).is_ok());
    assert_eq!(Ok(MESSAGE), rx.try_recv(&mut buffer));
}

#[test]
fn test_try_send_recv_queue_full() {
    let (mut buffer, mut tx, mut rx) = queue();

    for i in 0..(TOTAL_CAPACITY - CL_CAPACITY) {
        assert!(tx.try_send(&mut buffer, i).is_ok());
    }

    assert_eq!(Err((77, producer::Error::QueueFull)), tx.try_send(&mut buffer, 77));
    assert!(rx.try_recv(&mut buffer).is_ok());
    assert!(tx.try_send(&mut buffer, 49).is_ok());
}

#[test]
fn test_try_send_recv_queue_empty() {
    let (mut buffer, _, mut rx) = queue();
    assert_eq!(Err(consumer::Error::QueueEmpty), rx.try_recv(&mut buffer));
}

#[test]
fn test_try_send_recv_batch_one_recv() {
    const BATCH_SIZE: usize = CL_CAPACITY;
    let (mut buffer, mut tx, mut rx) = queue();
    let send_buf: [usize; BATCH_SIZE] = core::array::from_fn(|i| i);

    let send_res = tx.try_send_batch(&mut buffer, &send_buf);
    assert_eq!(Ok(BATCH_SIZE), send_res);
    assert!(tx.flush(&mut buffer).is_ok());

    let mut recv_buf = [0; BATCH_SIZE];
    assert_ne!(recv_buf, send_buf);

    let recv_res = rx.try_recv_batch(&mut buffer, &mut recv_buf);
    assert_eq!(Ok(BATCH_SIZE), recv_res);

    assert_eq!(recv_buf, send_buf);
}

#[test]
fn test_try_send_recv_batch_mul_recv() {
    const BATCH_SIZE: usize = CL_CAPACITY;
    const HALF_BATCH: usize = BATCH_SIZE / 2;
    let (mut buffer, mut tx, mut rx) = queue();
    let send_buf: [usize; BATCH_SIZE] = core::array::from_fn(|i| i);

    let send_res = tx.try_send_batch(&mut buffer, &send_buf);
    assert_eq!(Ok(BATCH_SIZE), send_res);
    assert!(tx.flush(&mut buffer).is_ok());

    let mut recv_buf = [0; BATCH_SIZE];
    assert_ne!(recv_buf, send_buf);

    let recv_res_1 = rx.try_recv_batch(&mut buffer, &mut recv_buf[0..HALF_BATCH]);
    assert_eq!(Ok(HALF_BATCH), recv_res_1);

    let recv_res_2 = rx.try_recv_batch(&mut buffer, &mut recv_buf[HALF_BATCH..]);
    assert_eq!(Ok(HALF_BATCH), recv_res_2);

    assert_eq!(recv_buf, send_buf);
}

#[test]
fn test_try_send_recv_batch_partial() {
    let (mut buffer, mut tx, mut rx) = queue();
    let mut buf = [0; 2 * CL_CAPACITY];

    assert_eq!(Ok(2 * CL_CAPACITY), tx.try_send_batch(&mut buffer, &buf));
    assert_eq!(Ok(CL_CAPACITY), rx.try_recv_batch(&mut buffer, &mut buf));
    assert!(tx.flush(&mut buffer).is_ok());
    assert_eq!(Ok(CL_CAPACITY), rx.try_recv_batch(&mut buffer, &mut buf));
    assert!(rx.try_recv(&mut buffer).is_err());
}

#[test]
fn test_try_send_recv_batch_queue_full() {
    let (mut buffer, mut tx, mut rx) = queue();

    for i in 0..MAX_WRITEABLE_SLOTS {
        assert!(tx.try_send(&mut buffer, i).is_ok());
    }

    assert_eq!(
        Err(producer::Error::QueueFull),
        tx.try_send_batch(&mut buffer, &[0; TOTAL_CAPACITY])
    );
    assert!(rx.try_recv(&mut buffer).is_ok());
    assert!(tx.try_send_batch(&mut buffer, &[0]).is_ok());
}

#[test]
fn test_try_send_recv_batch_queue_empty() {
    let (mut buffer, _, mut rx) = queue();

    assert_eq!(
        Err(consumer::Error::QueueEmpty),
        rx.try_recv_batch(&mut buffer, &mut [0])
    );
}

#[test]
fn test_try_send_recv_batch_exact_one_recv() {
    const BATCH_SIZE: usize = 8;
    let (mut buffer, mut tx, mut rx) = queue();
    let send_buf: [usize; BATCH_SIZE] = core::array::from_fn(|i| i);

    let send_res = tx.try_send_batch_exact(&mut buffer, &send_buf);
    assert_eq!(Ok(BATCH_SIZE), send_res);
    assert!(tx.flush(&mut buffer).is_ok());

    let mut recv_buf = [0; BATCH_SIZE];
    assert_ne!(recv_buf, send_buf);

    let recv_res = rx.try_recv_batch_exact(&mut buffer, &mut recv_buf);
    assert_eq!(Ok(BATCH_SIZE), recv_res);

    assert_eq!(recv_buf, send_buf);
}

#[test]
fn test_try_send_recv_batch_exact_mul_recv() {
    const BATCH_SIZE: usize = 8;
    const HALF_BATCH: usize = BATCH_SIZE / 2;
    let (mut buffer, mut tx, mut rx) = queue();
    let send_buf: [usize; BATCH_SIZE] = core::array::from_fn(|i| i);

    let send_res = tx.try_send_batch_exact(&mut buffer, &send_buf);
    assert_eq!(Ok(BATCH_SIZE), send_res);
    assert!(tx.flush(&mut buffer).is_ok());

    let mut recv_buf = [0; BATCH_SIZE];
    assert_ne!(recv_buf, send_buf);

    let recv_res_1 = rx.try_recv_batch_exact(&mut buffer, &mut recv_buf[0..HALF_BATCH]);
    assert_eq!(Ok(HALF_BATCH), recv_res_1);

    let recv_res_2 = rx.try_recv_batch_exact(&mut buffer, &mut recv_buf[HALF_BATCH..]);
    assert_eq!(Ok(HALF_BATCH), recv_res_2);

    assert_eq!(recv_buf, send_buf);
}

#[test]
fn test_try_send_recv_batch_exact_queue_full() {
    let (mut buffer, mut tx, mut rx) = queue();

    for i in 0..MAX_WRITEABLE_SLOTS {
        assert!(tx.try_send(&mut buffer, i).is_ok());
    }

    assert_eq!(
        Err(producer::Error::QueueFull),
        tx.try_send_batch_exact(&mut buffer, &[0])
    );

    assert!(rx.try_recv(&mut buffer).is_ok());
    assert!(tx.try_send_batch_exact(&mut buffer, &[0]).is_ok());
}

#[test]
fn test_try_send_recv_batch_exact_queue_empty() {
    let (mut buffer, _, mut rx) = queue();

    assert_eq!(
        Err(consumer::Error::QueueEmpty),
        rx.try_recv_batch_exact(&mut buffer, &mut [0])
    );
}
