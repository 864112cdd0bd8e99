//! An order-preserving map over a pool of workers, verified with Verus.
//!
//! Items are tagged with sequence numbers in input order and dealt out to
//! the workers of a pool in turn ([`pool`]). Each worker applies the
//! transform to what it was handed. The results arrive out of input order,
//! and a stream with a queue of early arrivals puts them back in order as it
//! is pulled ([`output_stream`], [`min_heap`]). [`par_map`](par_map()) puts
//! the stages together and states what comes out: position by position, a
//! result of the transform on the input at that position, whatever the size
//! of the pool and the order of arrival.
//!
//! [`digest`] holds the SHA-256 digest in hexadecimal.

pub mod digest;
pub mod min_heap;
pub mod output_stream;
pub mod par_map;
pub mod pool;
pub mod wrap;

pub use crate::par_map::par_map;
