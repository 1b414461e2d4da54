//! Verified kernels of a set of concurrency exercises: polynomial
//! multiplication (schoolbook, Karatsuba and batched), matrix
//! multiplication split into work groups, Hamiltonian cycle search,
//! a producer/consumer exchange and a small HTTP header reader.
pub mod poly_spec;
pub mod polynomial;
pub mod text;
pub mod matrix;
pub mod hamiltonian;
pub mod request;
pub mod exchange;
