//! Distance and similarity kernels over `f32` vectors: the verified part.
//!
//! The library holds everything the kernels and their command-line front end
//! decide: argument parsing and error reporting (`cli`), the validation and
//! error type of the kernels (`error`), choosing and ranking candidates by
//! their scores (`ranking`, over `f32` bit patterns, see `score`) and the kNN
//! vote (`vote`). The floating-point arithmetic itself (dot products, sums of
//! squares, square roots, parsing and printing `f32`) is done by the caller.
pub mod cli;
pub mod error;
pub mod laws;
pub mod numeral;
pub mod ranking;
pub mod score;
pub mod text;
pub mod vote;

pub use error::{validate_equal_len, KernelError, KernelResult};
