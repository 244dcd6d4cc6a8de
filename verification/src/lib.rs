//! A growable single-producer, single-consumer FIFO queue, built as a
//! circular ring of fixed-capacity blocks.
//!
//! The queue hands out elements in exactly the order they were put in; its
//! contract is stated over an abstract sequence view, and every operation is
//! verified against that view.

pub mod model;
pub mod pow2;
pub mod queue;

pub use pow2::ceilToPow2;
pub use queue::Block;
pub use queue::ReaderWriterQueue;
