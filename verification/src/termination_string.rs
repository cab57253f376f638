//! Termination policy as reported for received strings.

use vstd::prelude::*;

verus! {

/// The termination observed on incoming text, where `Unkown` stands until
/// one has been seen.
#[derive(Clone, Debug, PartialEq, Eq, PartialOrd, Ord, Hash)]
pub enum TerminationString {
    LF,
    CR,
    CRLF,
    Unkown,
    Unterminated,
    Custom(Vec<u8>),
}

impl Default for TerminationString {
    fn default() -> (r: TerminationString)
        ensures
            r == TerminationString::Unkown,
    {
        TerminationString::Unkown
    }
}

} // verus!
