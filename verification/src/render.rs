//! What can go wrong in rendering.
use vstd::prelude::*;

verus! {

/// The least version of the binary interface that can be rendered.
pub const ABI_VERSION_MIN: usize = 14;

/// The greatest version of the binary interface that can be rendered.
pub const ABI_VERSION_MAX: usize = 15;

/// Why a parser cannot be rendered.
#[derive(Debug, PartialEq, Eq)]
pub enum RenderError {
    /// The parse actions take this many places, too many to be numbered.
    ParseTable(usize),
    /// This version of the binary interface is not known.
    ABI(usize),
}

/// What rendering results in.
pub type RenderResult<T> = Result<T, RenderError>;

} // verus!
