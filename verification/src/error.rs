//! What can go wrong.
use vstd::prelude::*;

verus! {

/// What is wrong with an index or with what was asked of it.
#[derive(Clone, Copy, Debug, PartialEq, Eq, Structural)]
#[allow(inconsistent_fields)]
pub enum Fault {
    /// There are no vectors.
    NoVectors,
    /// The vector at `index` has `found` components in place of `expected`.
    DimensionMismatch { index: usize, found: usize, expected: usize },
    /// The header record does not fit in the space before the vectors.
    HeaderTooLarge,
    /// The buffer ends before the length of the header record.
    NoMetadataLength,
    /// The buffer ends inside the fixed part of the header.
    NoHeader,
    /// The buffer ends inside the header record.
    NoMetadata,
    /// The header names a format version that is not supported.
    UnsupportedVersion { version: u32 },
    /// There are no vectors to train on.
    NothingToTrainOn,
    /// A code is one byte, and cannot tell more than 256 centroids apart.
    TooManyCentroids { num_centroids: usize },
    /// The vectors cannot be cut into this many pieces of one length.
    NotDivisible { dim: usize, num_subspaces: usize },
    /// A training vector has `found` components in place of `expected`.
    TrainingDimension { expected: usize, found: usize },
    /// There are `labels` rows of labels for `vectors` vectors.
    LabelCount { labels: usize, vectors: usize },
    /// Row `index` of the labels has `found` fields in place of `expected`.
    LabelFields { index: usize, found: usize, expected: usize },
    /// The buffer ends before the length of its first part.
    BufferTooSmall,
    /// The buffer ends inside the index.
    NoIndexData,
    /// The labels end before the length of their head.
    NoLabels,
    /// The labels end inside their head.
    NoLabelHead,
    /// The labels end too early.
    LabelsTruncated,
    /// The buffer ends inside the fixed part of the quantized data.
    QuantizedTooSmall,
    /// The quantized data do not begin with their magic word.
    InvalidMagic { expected: u32, found: u32 },
    /// The quantized data are for another number of vectors.
    SidecarCount { sidecar: u64, base: usize },
    /// The buffer ends inside the quantizer.
    QuantizerTruncated,
    /// The quantizer is not of the kind that the data name.
    QuantizerMismatch,
    /// The buffer ends inside the codes.
    CodesTruncated,
    /// The added vector at `index` has `found` components in place of `expected`.
    AddedDimension { index: usize, found: usize, expected: usize },
    /// All vectors were deleted.
    NothingToCompact,
    /// The buffer is too short to tell how it is laid out.
    IncrementalTooSmall,
    /// The buffer ends inside the index.
    IncrementalTruncated,
    /// The buffer names a format version that is not supported.
    IncrementalVersion { version: u32 },
    /// An inserted vector has `found` components in place of `expected`.
    InsertedDimension { found: usize, expected: usize },
    /// The index cannot grow any further on this machine.
    OutOfRoom,
    /// The header record is said to be longer than it can be.
    InvalidMetadataLength { length: u64, file_size: u64 },
}

/// Why an operation failed.
#[derive(Debug)]
pub enum DiskAnnError {
    /// A file ended where more was to be read.
    UnexpectedEof,
    /// A record could not be written or read.
    Bincode(Box<bincode::ErrorKind>),
    /// The index, or the request, is at fault.
    IndexError(Fault),
}

} // verus!
