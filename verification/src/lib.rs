//! A small dense-tensor toolkit for training neural networks: row-major
//! two-dimensional tensors, mini-batch loading and the IDX file format of the
//! MNIST digit dataset.
//!
//! The element type of a tensor is generic. Structure (shapes, layout,
//! indexing, broadcasting, reductions, batching, parsing) is verified here;
//! element arithmetic is handed in by the caller as closures.

pub mod data;
pub mod fold;
pub mod layer;
pub mod loss;
pub mod mnist;
pub mod tensor;
