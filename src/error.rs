use vstd::prelude::*;

verus! {

/// Why a message could not be read, written or handled.
#[derive(Debug, Clone, Copy, PartialEq, Eq, Structural)]
pub enum DnsError {
    /// A read or write would go past the end of the buffer.
    EndOfBuffer,
    /// A label read from the wire is not valid UTF-8 text.
    Encoding,
    /// A label to be written is longer than 255 bytes.
    LabelTooLong,
    /// A query carries no question.
    NoQuestion,
}

} // verus!
