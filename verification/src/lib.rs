//! Single-pass aggregation of `key;value` records: per key the minimum, the
//! maximum and the mean of all values seen, written out in the order of the
//! keys. Every step is stated over mathematical models and proved.
//!
//! The stages, leaves first:
//!
//! - `ring_buffer`: the bounded queue between a reading thread and a worker.
//! - `scanner`: the offsets of the delimiters of a byte range.
//! - `fixed_point`: values with one fractional digit, read and written.
//! - `station` and `container`: the statistics of one key, and the table of
//!   all keys.
//! - `aggregate`: what aggregation means, and why order and partition do not
//!   matter.
//! - `cursor` and `reader`: chunks of the input, claimed by workers and
//!   recorded record by record.
//! - `reducer`: the tables merged, sorted and written.
//! - `worker_pool`: the worker at the reading end of the queue.

pub mod aggregate;
pub mod circular;
pub mod container;
pub mod cursor;
pub mod fixed_point;
pub mod reader;
pub mod reducer;
pub mod ring_buffer;
pub mod scanner;
pub mod station;
pub mod worker_pool;
