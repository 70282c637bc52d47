//! The errors of decoding.

use vstd::prelude::*;

verus! {

/// Why a segment could not be decoded. `SegmentChecksumMismatch` is only
/// ever reported as a warning beside a decoded segment.
#[derive(Clone, Copy, Debug, PartialEq, Eq)]
pub enum DecodeError {
    /// The header's size byte or protocol version is not recognised.
    InvalidHeader,
    /// The header's own checksum does not match its bytes.
    HeaderChecksumMismatch,
    /// Fewer bytes remain than the header or a frame declares.
    TruncatedStream,
    /// A data frame whose type has no definition yet in its segment; `offset`
    /// is the position of that frame in the segment's body.
    UndefinedFrameType { type_id: u8, offset: usize },
    /// A field's byte size is not a whole number of its base type's elements.
    FieldWidthMismatch,
    /// The trailing checksum does not match the segment's bytes.
    SegmentChecksumMismatch,
}

} // verus!
