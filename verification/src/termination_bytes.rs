//! The termination policy a connection uses to decide that a read has
//! received a complete message.

use vstd::prelude::*;

use crate::text::subvec;

verus! {

/// Message termination: line feed, carriage return, both, a custom byte
/// sequence, or none at all (then a fixed frame size must frame reads).
#[derive(Clone, Debug, PartialEq, Eq, PartialOrd, Ord, Hash)]
pub enum TerminationBytes {
    LF,
    CR,
    CRLF,
    Unterminated,
    Custom(Vec<u8>),
}

impl Default for TerminationBytes {
    fn default() -> (r: TerminationBytes)
        ensures
            r == TerminationBytes::LF,
    {
        TerminationBytes::LF
    }
}

/// The bytes a policy terminates messages with.
pub open spec fn term_bytes(t: TerminationBytes) -> Seq<u8> {
    match t {
        TerminationBytes::LF => seq![10u8],
        TerminationBytes::CR => seq![13u8],
        TerminationBytes::CRLF => seq![13u8, 10u8],
        TerminationBytes::Unterminated => Seq::empty(),
        TerminationBytes::Custom(b) => b@,
    }
}

impl TerminationBytes {
    /// The terminator as bytes.
    pub fn bytes(&self) -> (r: Vec<u8>)
        ensures
            r@ == term_bytes(*self),
    {
        match self {
            TerminationBytes::LF => {
                let mut v: Vec<u8> = Vec::new();
                v.push(10);
                proof {
                    assert(v@ =~= term_bytes(*self));
                }
                v
            },
            TerminationBytes::CR => {
                let mut v: Vec<u8> = Vec::new();
                v.push(13);
                proof {
                    assert(v@ =~= term_bytes(*self));
                }
                v
            },
            TerminationBytes::CRLF => {
                let mut v: Vec<u8> = Vec::new();
                v.push(13);
                v.push(10);
                proof {
                    assert(v@ =~= term_bytes(*self));
                }
                v
            },
            TerminationBytes::Unterminated => {
                let v: Vec<u8> = Vec::new();
                proof {
                    assert(v@ =~= term_bytes(*self));
                }
                v
            },
            TerminationBytes::Custom(b) => subvec(b, 0, b.len()),
        }
    }
}

} // verus!
