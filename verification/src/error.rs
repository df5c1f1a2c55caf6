//! The errors of the library.

use vstd::prelude::*;

verus! {

/// Why a domain could not be made.
#[derive(Clone, Copy, Debug, PartialEq, Eq)]
pub enum SynthesisError {
    /// The polynomial has more coefficients than the largest domain that the
    /// field offers can hold.
    PolynomialDegreeTooLarge,
}

} // verus!
