use vstd::prelude::*;

verus! {

/// Why a message could not be decoded or encoded.
///
/// Every error is terminal for the message at hand: nothing partially built
/// is handed back.
#[derive(Debug, Clone, Copy, PartialEq, Eq, Structural)]
pub enum DnsError {
    /// A read or a jump of the cursor went past the end of the buffer.
    OutOfBounds,
    /// A label length byte carried one of the reserved tags `01` or `10`.
    UnsupportedLabelEncoding,
    /// A compression pointer did not point strictly before the labels it continues.
    CompressionLoop,
    /// A record announced more data bytes than the buffer holds.
    TruncatedRecord,
    /// An address record whose data is not exactly four bytes long.
    MalformedAddress,
    /// A label of more than 63 bytes was given to the encoder.
    LabelTooLong,
    /// A name with an empty label (two dots in a row, a leading or trailing dot) was
    /// given to the encoder.
    EmptyLabel,
    /// A record whose declared data length differs from the length of its data was
    /// given to the encoder.
    LengthMismatch,
    /// A message whose header counts differ from the lengths of its sections was
    /// given to the encoder.
    CountMismatch,
}

} // verus!
