//! A queue from one producer to one consumer, in a ring of cache lines.
//!
//! The producer owns the line that it writes to. What it has written there is
//! pending: the consumer sees it once the producer gives the line away, by going
//! on to the next one or by a flush. So messages become visible line by line.
//!
//! The two ends act on a ring that is handed to them with each call. Each of
//! them remembers where it stands and what it last saw of the other.

pub mod buffer;
pub mod channel;
pub mod consumer;
pub mod interruption_tracker;
pub mod log;
pub mod math;
pub mod producer;
pub mod reading;
pub mod reservation;
pub mod slot_ptr;
pub mod slot_tracker;
pub mod spinlock;
pub mod transitions;
