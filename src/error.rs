use vstd::prelude::*;

verus! {

/// Everything that can stop a decode. The first error ends the decode and is handed
/// to the caller; nothing is recovered inside the library.
#[derive(Clone, Copy, Debug, PartialEq, Eq, Structural)]
pub enum FlacError {
    /// The stream does not start with `fLaC`.
    BadMagic,
    /// The first metadata block is not a StreamInfo block.
    StreamInfoMissing,
    /// A StreamInfo block follows the first metadata block.
    DuplicateStreamInfo,
    /// A metadata block carries the reserved type 127.
    InvalidMetadataType,
    /// The StreamInfo block is not 34 bytes long, or breaks its own invariants.
    InvalidStreamInfo,
    /// A frame does not start with the sync code, or a zero padding bit is set.
    FrameSyncLost,
    /// Block size code 0.
    InvalidBlockSizeCode,
    /// Sample rate code 15.
    InvalidSampleRateCode,
    /// Sample size code 3 or 7.
    ReservedSampleSize,
    /// Channel assignment 11 to 15.
    ReservedChannelAssignment,
    /// A UTF-8 style coded number with a bad leading byte or continuation byte,
    /// or a frame number beyond 32 bits.
    InvalidCodedNumber,
    /// A reserved subframe type code.
    ReservedSubframeType,
    /// As many wasted bits as the subframe has bits per sample, or more.
    InvalidWastedBits,
    /// Residual coding method 2 or 3.
    InvalidResidualCodingMethod,
    /// The partition order does not divide the block, or leaves the first
    /// partition shorter than the predictor order.
    InvalidPartitionOrder,
    /// A decoded residual or sample does not fit the subframe's sample width.
    SampleOutOfRange,
    /// The CRC-8 of a frame header does not match.
    FrameHeaderCrcMismatch,
    /// The CRC-16 of a frame does not match.
    FrameCrcMismatch,
    /// The stream ends inside the metadata.
    TruncatedMetadata,
    /// The stream ends inside a frame.
    TruncatedFrame,
    /// The bit reader ran past the end of its bytes.
    EndOfStream,
}

} // verus!
