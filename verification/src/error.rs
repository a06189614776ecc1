//! The error kinds the solvers surface: a parse that cannot read its
//! input, a query outside a grid, and a solver whose input breaks the
//! documented uniqueness guarantee.

use vstd::prelude::*;

verus! {

#[derive(Clone, Copy, Debug, PartialEq, Eq, Structural)]
pub enum PuzzleError {
    MalformedInput,
    OutOfBounds,
    NotFound,
}

} // verus!
