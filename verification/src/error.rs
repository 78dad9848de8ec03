//! The ways in which parsing or assembling an entry can fail.

use vstd::prelude::*;

verus! {

/// Why a parse or an assembly did not produce a value.
#[derive(Debug, Clone, Copy, PartialEq, Eq, Structural)]
pub enum ParseError {
    /// The input at the current position is present but is not what the
    /// grammar allows there.
    GrammarMismatch,
    /// The input ends before the element being read is complete.
    IncompleteInput,
    /// A token is well formed but names something that does not exist, such as
    /// the thirtieth of February.
    ValueError,
    /// An entry was read in full but carries no `DATE` field.
    MissingRequiredField,
}

impl ParseError {
    /// Whether a repetition or a choice may treat this failure as "the element
    /// is not here" and go on: true of a mismatch and of truncated input,
    /// false of the two failures that condemn the whole document.
    pub open spec fn is_recoverable(self) -> bool {
        self is GrammarMismatch || self is IncompleteInput
    }

    /// Executable form of [`ParseError::is_recoverable`].
    pub fn recoverable(&self) -> (r: bool)
        ensures
            r == self.is_recoverable(),
    {
        match self {
            ParseError::GrammarMismatch => true,
            ParseError::IncompleteInput => true,
            _ => false,
        }
    }
}

} // verus!
