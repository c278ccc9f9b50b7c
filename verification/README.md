# lamellae

A queue from one producer to one consumer, in a ring of cache lines.

The producer owns the line that it writes to. A message lies there unseen until
the producer gives the line away, by going on to the next line or by `flush`. So
messages become visible line by line, not one by one.

## Layout

- `src/log.rs` says what a queue is: the messages ever accepted, where each line
  of them starts, and how many were delivered. The laws of sending, flushing and
  receiving are stated there.
- `src/buffer.rs` is the ring, and says when the ring holds what its log says.
- `src/producer.rs` and `src/consumer.rs` are the two ends, and
  `src/reservation.rs` lets either end handle the messages of a batch one by one.
- `src/transitions.rs` and `src/reading.rs` show that sending and receiving keep
  the ring and its log together.
- `src/interruption_tracker.rs` keeps the ends of lines that were flushed before
  they were full. `src/slot_tracker.rs` keeps slots in use as a list of spans.
- `src/channel.rs` checks that a queue can be made for a type of message.
- `app/` shares a ring between two threads.

The two ends do not hold the ring: it is handed to them with each call. The
number of slots in a line and the capacity are powers of two.
