use vstd::prelude::*;

verus! {

/// The failure kinds of an extraction run.
#[derive(Clone, Copy, Debug, PartialEq, Eq, Structural)]
pub enum UnpackError {
    /// An open, create, write or delete on the filesystem failed.
    Io,
    /// Malformed container metadata or an invalid gzip stream.
    CorruptEntry,
    /// An entry lookup was out of range.
    Index,
    /// The source path has no derivable destination-root name.
    NoStem,
}

} // verus!
