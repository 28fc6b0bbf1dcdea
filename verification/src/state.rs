use vstd::prelude::*;

use crate::extent::Extent;

verus! {

/// The record of what one read actually did: which device was read, which
/// extents were consulted, and how many bytes were produced.
#[derive(Debug, Clone)]
pub struct State {
    /// Path of the block device the bytes came from; empty when the
    /// ordinary file-read path was taken.
    pub block_device_path: String,
    /// The extents the read consulted; empty when the ordinary file-read
    /// path was taken.
    pub extents: Vec<Extent>,
    /// Number of bytes produced into the caller's buffer.
    pub bytes_read: usize,
    /// Whether the read went through the ordinary file-read path instead
    /// of the block device.
    pub used_fallback: bool,
}

impl State {
    /// A fallback read records no device path and no extents.
    pub open spec fn consistent(self) -> bool {
        self.used_fallback ==> self.block_device_path@.len() == 0 && self.extents@.len() == 0
    }

    /// Record a completed read.
    pub fn new(
        block_device_path: String,
        extents: Vec<Extent>,
        bytes_read: usize,
        used_fallback: bool,
    ) -> (r: State)
        requires
            used_fallback ==> block_device_path@.len() == 0 && extents@.len() == 0,
        ensures
            r.block_device_path == block_device_path,
            r.extents == extents,
            r.bytes_read == bytes_read,
            r.used_fallback == used_fallback,
            r.consistent(),
    {
        State { block_device_path, extents, bytes_read, used_fallback }
    }

    /// Record a read satisfied through the ordinary file-read path.
    pub fn fallback(bytes_read: usize) -> (r: State)
        ensures
            r.block_device_path@.len() == 0,
            r.extents@.len() == 0,
            r.bytes_read == bytes_read,
            r.used_fallback,
            r.consistent(),
    {
        State {
            block_device_path: String::new(),
            extents: Vec::new(),
            bytes_read,
            used_fallback: true,
        }
    }
}

} // verus!
