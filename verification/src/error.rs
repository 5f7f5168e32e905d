//! Error kinds shared by the codec, the stream and the filter parser.

use vstd::prelude::*;

verus! {

/// Why a decode, encode, filter-parse or merge operation failed.
///
/// The kinds mirror the causes named by the container format: `Corrupt`-style
/// kinds for bytes a producer got wrong, `Unsupported*` for features the
/// library deliberately refuses, and filter/configuration kinds for malformed
/// user input.
#[derive(Clone, Copy, Debug, PartialEq, Eq, Structural)]
pub enum BgenError {
    /// The source ended before a read of the announced size could finish.
    UnexpectedEndOfInput,
    /// A length-prefixed string was not valid UTF-8.
    InvalidUtf8,
    /// The four magic bytes were neither zero nor the format tag.
    MagicMismatch,
    /// `header_size` was below the fixed 20-byte prefix.
    HeaderSizeTooSmall,
    /// `variant_num` was zero.
    NoVariants,
    /// `sample_num` was zero.
    NoSamples,
    /// The cursor passed `start_data_offset` while the header was still being
    /// parsed: the announced offset lies inside the header area.
    HeaderOffsetMismatch,
    /// The embedded sample list disagrees with the pre-supplied one.
    SampleMismatch,
    /// The zlib decoder could not fill the announced uncompressed length.
    DecompressionFailed,
    /// The `phased` byte was neither 0 nor 1.
    PhasedByteInvalid,
    /// The probability bit width was zero.
    ZeroBitWidth,
    /// Records of a layout other than 2 were asked for.
    UnsupportedLayout,
    /// The encoder was asked for a probability bit width that is not a
    /// positive multiple of 8.
    UnsupportedBitWidth,
    /// An encoded block or string is too long for its length prefix.
    LengthOverflow,
    /// A range filter expression did not have the `chr:start-end` shape.
    InvalidRangeExpression,
    /// A filter was given as a file name; the caller must load the file and
    /// pass its text instead.
    FilterFileNotLoaded,
    /// Both an inline filter and a filter file were given for one group.
    ConflictingFilterInputs,
    /// The compressor reported a failure.
    CompressionFailed,
    /// A merge was asked for with no input.
    NothingToMerge,
}

} // verus!
