//! The failure taxonomy of the store.

use vstd::prelude::*;

verus! {

/// Every fallible operation of the store reports one of these typed
/// failures; none of them terminates the process.
#[derive(Debug, Clone, PartialEq, Eq)]
pub enum N5Error {
    /// A read-only open found no root at the given location.
    RootNotFound,
    /// `create_dataset` found a dataset already present at the path.
    DatasetAlreadyExists,
    /// An operation addressed a dataset that has not been created.
    DatasetNotFound,
    /// Dataset attributes with mismatched ranks or a non-positive block
    /// dimension (or a block whose element count no buffer could hold).
    InvalidShape,
    /// A block write whose buffer length (in bytes) differs from the
    /// dataset's nominal block byte count: `expected` versus `actual`.
    BlockSizeMismatch { expected: usize, actual: usize },
    /// An element-type tag outside the ten supported kinds.
    UnsupportedDataType { name: String },
    /// A codec identifier outside the supported set.
    UnsupportedCodec { name: String },
    /// An attribute record that is present but malformed.
    AttributeParseError,
    /// Stored block bytes that fail decompression or decompress to a
    /// length other than the expected element count times element size.
    CorruptBlock,
    /// A transient failure of the underlying storage.
    IOFailure,
}

/// The label `describe` returns for each failure.
pub open spec fn spec_describe(e: N5Error) -> Seq<char> {
    match e {
        N5Error::RootNotFound => "root not found"@,
        N5Error::DatasetAlreadyExists => "dataset already exists"@,
        N5Error::DatasetNotFound => "dataset not found"@,
        N5Error::InvalidShape => "invalid dataset shape"@,
        N5Error::BlockSizeMismatch { .. } => "block size mismatch"@,
        N5Error::UnsupportedDataType { .. } => "unsupported data type"@,
        N5Error::UnsupportedCodec { .. } => "unsupported codec"@,
        N5Error::AttributeParseError => "attribute record is malformed"@,
        N5Error::CorruptBlock => "block bytes are corrupt"@,
        N5Error::IOFailure => "i/o failure"@,
    }
}

impl N5Error {
    /// A short descriptive label, in place of `Display`.
    pub fn describe(&self) -> (r: String)
        ensures
            r@ == spec_describe(*self),
            r@.len() > 0,
    {
        let s = match self {
            N5Error::RootNotFound => "root not found",
            N5Error::DatasetAlreadyExists => "dataset already exists",
            N5Error::DatasetNotFound => "dataset not found",
            N5Error::InvalidShape => "invalid dataset shape",
            N5Error::BlockSizeMismatch { .. } => "block size mismatch",
            N5Error::UnsupportedDataType { .. } => "unsupported data type",
            N5Error::UnsupportedCodec { .. } => "unsupported codec",
            N5Error::AttributeParseError => "attribute record is malformed",
            N5Error::CorruptBlock => "block bytes are corrupt",
            N5Error::IOFailure => "i/o failure",
        };
        proof {
            reveal_strlit("root not found");
            reveal_strlit("dataset already exists");
            reveal_strlit("dataset not found");
            reveal_strlit("invalid dataset shape");
            reveal_strlit("block size mismatch");
            reveal_strlit("unsupported data type");
            reveal_strlit("unsupported codec");
            reveal_strlit("attribute record is malformed");
            reveal_strlit("block bytes are corrupt");
            reveal_strlit("i/o failure");
        }
        s.to_owned()
    }
}

} // verus!
