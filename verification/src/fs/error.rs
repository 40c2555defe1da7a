//! The error kinds a filesystem operation can report.

use vstd::prelude::*;

verus! {

/// Why a filesystem operation could not produce a result.
///
/// Malformed input bytes are data, not a programming error: every core
/// operation reports one of these kinds instead of panicking.
#[derive(Clone, Copy, Debug, PartialEq, Eq, Structural)]
pub enum FsError {
    /// A buffer's length does not match the fixed size of the structure
    /// it was to be read into or written from.
    SizeMismatch,
    /// A buffer has the right size for a volume header but its magic tag
    /// does not identify it as this format.
    InvalidMagic,
    /// A volume or entry name is longer than the fixed name field.
    NameTooLong,
    /// A volume's block count cannot hold the header, the allocation
    /// bitmap, and one root directory block.
    VolumeTooSmall,
    /// A directory block has no free slot left.
    DirectoryFull,
    /// No entry of the requested name exists in a directory block.
    EntryNotFound,
    /// The storage collaborator failed to read or write a block; carried
    /// through unchanged for callers that do device I/O.
    StorageIOError,
}

} // verus!
