//! The tensor value type the network schedules over: a dense row-major
//! container with verified shape and index arithmetic. The per-element float
//! operations are delegated to the `num_traits` crate.

pub mod elem;
pub mod elemwise;
pub mod gen_tensor;
pub mod linalg;
