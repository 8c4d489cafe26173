//! Lane-parallel micro-benchmark kernels with verified contracts.

pub mod fib;
pub mod fwt;
pub mod fwt_exact;
pub mod fwt_pairs;
pub mod lanes;
pub mod math;
pub mod nbody;
pub mod support;
