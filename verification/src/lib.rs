//! Polynomial arithmetic over the scalar field of BLS12-381 on radix-2
//! evaluation domains.
//!
//! A polynomial is held either by its coefficients or by its values on the
//! powers of a `2^k`-th root of unity; the number-theoretic transform moves
//! between the two forms.  Every transform in this crate is proved to compute
//! the discrete Fourier transform that [`transform::dft`] defines, and the
//! round trips between the forms are proved in [`laws`].

pub mod error;
pub mod field;
mod montgomery;
pub mod group;
pub mod sums;
pub mod transform;
pub mod worker;
pub mod gpu;
pub mod fft;
pub mod domain;
pub mod laws;
