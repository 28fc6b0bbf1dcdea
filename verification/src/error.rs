use vstd::prelude::*;

verus! {

/// The failures a read can surface.  Anything a collaborator reports is
/// propagated verbatim; a hole or a short read under a disabled fill
/// policy is an early stop, not an error, and never appears here.
#[derive(Clone, Copy, Debug, PartialEq, Eq, Structural)]
pub enum ReadError {
    /// The source file or the block device could not be found or opened.
    NotFound,
    /// Insufficient privilege to open the block device.
    PermissionDenied,
    /// The queried range has no allocated extents at all.
    UnexpectedEof,
    /// Any other I/O failure reported by a collaborator.
    Io,
}

} // verus!
