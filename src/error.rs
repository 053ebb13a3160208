use vstd::prelude::*;

verus! {

/// The ways a decode or an encode can fail. Each one ends the current call.
#[derive(Debug, Clone, Copy, PartialEq, Eq, Structural)]
pub enum DnsError {
    /// A read or a write would pass the end of the buffer.
    EndOfBuffer,
    /// Moving the position would overflow it.
    OutOfBounds,
    /// A name followed more compression pointers than allowed.
    CompressionLoop,
    /// A label to encode is longer than 63 bytes.
    LabelTooLong,
    /// A record's data length does not fit its type.
    MalformedRecord,
}

} // verus!
