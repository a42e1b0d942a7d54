//! Errors of the library. Each variant carries the values that explain it, so
//! a caller can render whatever message it needs.

use vstd::prelude::*;

verus! {

/// Why a write or seek on an output sink failed.
#[derive(Debug, Clone, Copy, PartialEq, Eq)]
pub enum SinkError {
    /// A write would run past the end of a fixed-size (mapped) output.
    WriteOverflow,
    /// A seek to a position outside a fixed-size (mapped) output.
    InvalidSeek,
}

/// Errors reported by the library.
#[derive(Debug, PartialEq, Eq)]
pub enum MdfError {
    /// A byte count or offset does not fit the address width of this target.
    AddressOverflow(u64),
    /// A fragment's start offset plus its length overflows `u64`.
    FragmentEndOverflow,
    /// A requested range's offset plus its length overflows `u64`.
    RangeEndOverflow,
    /// The fragments do not cover the requested range `[start, end)`;
    /// `missing` is the first byte that none of them holds.
    RangeNotCovered { start: u64, end: u64, missing: u64 },
    /// A probing read found a gap; the gap was recorded for a later fetch.
    RangeNotYetAvailable,
    /// No block was written under this identifier.
    BlockNotFound(String),
    /// The source block of a link is unknown.
    SourceBlockNotFound(String),
    /// The target block of a link is unknown.
    TargetBlockNotFound(String),
    /// The output sink refused a write or seek.
    Io(SinkError),
    /// A buffer is shorter than the structure that is to be read from it.
    TooShortBuffer { actual: usize, expected: usize },
    /// A block's declared links or values do not fit in the block.
    MalformedBlock,
    /// Range and fragment lists that must be parallel differ in length.
    ParallelListsMismatch { ranges: usize, fragments: usize },
    /// A channel holds fewer values than the group has records.
    ChannelLengthMismatch { channel: usize, values: usize, records: usize },
    /// Compressed data blocks cannot be served from raw file fragments.
    CompressedBlockUnsupported,
    /// An index entry names a data block smaller than a block header.
    DataBlockTooSmall { file_offset: u64, size: u64 },
}

} // verus!
