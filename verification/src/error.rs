//! The ways in which a program can be refused.

use vstd::prelude::*;

verus! {

/// Why a stage of the pipeline gave up.
#[derive(Debug, Clone, Copy, PartialEq, Eq, Structural)]
pub enum Error {
    /// The source text holds a character that is neither one of the eight
    /// symbols nor a separator.
    InvalidCharacter(char),
    /// A closing bracket has no opening partner, or an opening bracket is
    /// never closed.
    UnmatchedBracket,
    /// The assembler refused an instruction or a label, or could not encode
    /// the program, or the code does not fit its region.
    CodeGenerationFailure,
}

} // verus!
