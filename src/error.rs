//! Errors reported by the library.
use vstd::prelude::*;

verus! {

/// Errors of the library's constructors.
#[derive(Clone, Copy, Debug, PartialEq, Eq, Structural)]
pub enum PlotError {
    /// A size or granularity of zero, or an otherwise malformed argument.
    InvalidInput,
    /// A polygon without any point.
    EmptyPolygon,
}

} // verus!
