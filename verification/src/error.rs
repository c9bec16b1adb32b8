//! Why a reduction is refused.

use vstd::prelude::*;

verus! {

/// The ways in which a request for a reduction can be wrong.
#[derive(Clone, Copy, Debug, PartialEq, Eq, Structural)]
pub enum ReduceError {
    /// A shape does not fit: the number of output dimensions is out of
    /// range, the matrix is empty where it may not be, or its rows differ in
    /// length.
    Shape,
    /// An option of the reduction is outside its permitted range.
    Config,
}

} // verus!
