use vstd::prelude::*;

verus! {

/// Why a message could not be decoded or encoded.
#[derive(Debug, Clone, Copy, PartialEq, Eq, Structural)]
pub enum CodecError {
    /// A read would cross the end of the buffer.
    TruncatedBuffer,
    /// A compression pointer does not point strictly before itself.
    InvalidPointer,
    /// A name chains more compression pointers than the decoder follows.
    PointerChainTooLong,
    /// A label is longer than 63 bytes.
    LabelTooLong,
    /// A name takes more than 255 bytes on the wire.
    NameTooLong,
    /// A section holds more than 65535 entries.
    TooManyRecords,
    /// Meant for callers that restrict opcodes or response codes; the codec
    /// itself passes every code through and never returns this.
    ReservedOpcodeOrRcodeUnsupported,
    /// A name to encode holds an empty label.
    EmptyLabel,
    /// Record data to encode is longer than 65535 bytes.
    RdataTooLong,
}

} // verus!
