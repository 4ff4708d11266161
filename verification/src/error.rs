use vstd::prelude::*;

verus! {

/// Why a read or a write on a message buffer failed.
#[derive(Clone, Copy, Debug, PartialEq, Eq, Structural)]
pub enum DnsError {
    /// A byte at or beyond the end of the buffer was asked for.
    OutOfBounds,
    /// A name followed more compression pointers than are allowed.
    TooManyJumps,
    /// A label of a name is longer than 63 bytes.
    LabelTooLong,
}

impl DnsError {
    /// The message that describes the error.
    pub fn message(&self) -> (text: &'static str)
        ensures
            text@ == match *self {
                DnsError::OutOfBounds => "end of buffer"@,
                DnsError::TooManyJumps => "limit of 5 jumps exceeded"@,
                DnsError::LabelTooLong => "Single label exceeds 63 characters of length"@,
            },
    {
        match self {
            DnsError::OutOfBounds => "end of buffer",
            DnsError::TooManyJumps => "limit of 5 jumps exceeded",
            DnsError::LabelTooLong => "Single label exceeds 63 characters of length",
        }
    }
}

} // verus!
