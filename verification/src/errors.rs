//! The error kinds that every internal failure surfaces as.

use vstd::prelude::*;

verus! {

/// Why a lookup or a mount failed.  The embedding server collapses all of
/// these to a single not-found response; the kind is still reported so that
/// callers and tests can tell rejections apart.
#[derive(Clone, Copy, Debug, PartialEq, Eq, Structural)]
pub enum CacheError {
    /// No node matches the path.
    NotFound,
    /// The path escapes the configured root after normalization.
    PermissionDenied,
    /// A leaf that is not an archive was asked for descendants.
    NotAnArchive,
    /// Bytes that were taken for an archive could not be parsed as one.
    DecodeError,
    /// An archive reader was no longer available when it was needed.
    IoError,
    /// A real directory node cannot double as a nested-archive node.
    NestedArchiveConflict,
}

} // verus!
