use vstd::prelude::*;

verus! {

/// Why a state or a basis could not be built.
#[derive(Debug, Clone, Copy, PartialEq, Eq, Structural)]
pub enum BasisError {
    /// The `(start, n, l)` combination cannot seat the particles.
    ConfigurationError,
    /// Indices or a compound value lie outside the bounds of a shape.
    IndexOutOfRange,
}

} // verus!
