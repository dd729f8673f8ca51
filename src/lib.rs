//! A cache-blocked general matrix multiply, `C <- alpha * op(A) * op(B) + beta * C`,
//! written once against an abstract element type, an abstract matrix view, a
//! pluggable microkernel and a pluggable executor.
pub mod number;
pub mod matrix;
pub mod executor;
pub mod kernel;
pub mod generic;
pub mod blocking;
pub mod gemm;
pub mod laws;
