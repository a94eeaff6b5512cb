//! Parallel numeric kernels over shared buffers: a divide-and-conquer sort
//! whose jobs work on disjoint regions, and a row-chunked matrix transform.
pub mod matrix;
pub mod sort;
