use vstd::prelude::*;

verus! {

/// The ways an operation of the store can fail.
#[derive(Debug, Clone, Copy, PartialEq, Eq, Structural)]
pub enum StoreError {
    /// Reading or writing the file system failed.
    Io,
    /// The index file exists but does not hold a well-formed index.
    CorruptIndex,
    /// A path cannot be recorded in the index (it holds a NUL byte).
    InvalidPath,
    /// The index already holds as many entries as its header can count.
    IndexFull,
    /// The compressor reported a failure.
    Compression,
}

} // verus!
