//! The closed set of error kinds that a decode attempt can yield.
//!
//! Every kind is terminal for the current decode attempt: no partially
//! populated stream or message is ever returned on failure.

use vstd::prelude::*;

verus! {

/// Maximum byte length of a single length-prefixed item (one TLV record's
/// value, or one message payload element). A declared length above this
/// bound is rejected before any buffer is allocated, guarding against
/// resource exhaustion from a hostile length field.
pub const MAX_RECORD_LEN: u64 = 0xFFFF;

/// What went wrong while decoding wire bytes.
///
/// `TruncatedInput` is kept distinct from the other kinds so that a
/// streaming caller can tell "more bytes have not arrived yet" apart from a
/// genuine protocol violation that must drop the connection.
#[derive(Clone, Copy, Debug, PartialEq, Eq, Structural)]
pub enum DecodeError {
    /// A variable-length integer was truncated or used a wider form than
    /// the minimal one for its value.
    MalformedVarint,
    /// A TLV record's type was not strictly greater than its predecessor.
    OutOfOrderType,
    /// The same TLV type occurred twice.
    DuplicateType,
    /// A declared length exceeds the configured maximum record length.
    RecordTooLarge,
    /// An even TLV type was not in the consumer's known-type table.
    UnknownEvenType,
    /// No registry entry matches a top-level message type code.
    UnknownMessageType,
    /// Fewer bytes were available than a length field declared.
    TruncatedInput,
    /// Bytes remained after a fixed-framing payload was fully decoded.
    TrailingBytes,
}

} // verus!
