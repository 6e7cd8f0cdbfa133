//! Dense numeric kernels on flat row-major buffers: matrix product, valid
//! stride-one 2-D convolution with bias, and non-overlapping 2-D max pooling.
//!
//! Shapes travel beside the buffers as plain extents. Each kernel first
//! validates its extents against the lengths of the buffers it is given, and
//! refuses them with a [`error::KernelError`] before it reads anything. A
//! validated shape answers, for every output entry, which input entries feed
//! it and in which order, with every offset proved in range.
//!
//! The kernels are generic in the scalar: the caller hands in the scalar
//! step (multiply and add, or the larger of two), and the contracts fix the
//! order in which the steps are taken for each output entry.

pub mod conv;
pub mod error;
pub mod layout;
pub mod matmul;
pub mod pool;
