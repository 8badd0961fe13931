use vstd::prelude::*;

verus! {

/// Why a frame could not be decoded or encoded, or a forwarded query failed.
#[derive(Debug, Clone, Copy, PartialEq, Eq, Structural)]
pub enum DnsError {
    /// A buffer is not of the fixed size its section needs (12 bytes for a
    /// header, 512 for a message).
    Length,
    /// A label's bytes are not valid UTF-8.
    Encoding,
    /// An answer's RDLENGTH is not 4: only IPv4 address records are carried.
    UnsupportedRecord,
    /// A compression pointer names an offset at which no label was decoded.
    CompressionReference,
    /// The counts or lengths in a frame reach past its end.
    Malformed,
    /// The encoded message does not fit in 512 bytes.
    TooLarge,
    /// A label that the wire format cannot carry: empty, or over 63 bytes.
    InvalidLabel,
    /// Sending a query to the upstream resolver, or receiving its reply, failed.
    UpstreamIo,
    /// The upstream resolver's reply is not a message that decodes.
    UpstreamDecode,
}

} // verus!
