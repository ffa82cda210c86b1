//! Exhaustive injectivity testing of a deterministic pseudo-random mapping.
//!
//! A bounded integer domain is cut into contiguous slices, every domain value
//! is sent through a fixed-point Lehmer generator, each slice collects its
//! values in a priority stream, and a k-way merge over the streams counts how
//! many generated values repeat an earlier one.

pub mod fixed;
pub mod generator;
pub mod heap;
pub mod merge;
pub mod partition;
pub mod pipeline;
pub mod producer;
