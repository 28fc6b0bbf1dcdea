use vstd::prelude::*;

verus! {

/// The per-extent flags the read policy inspects, as plain booleans.
#[derive(Clone, Copy, Debug, PartialEq, Eq, Structural)]
pub struct ExtentFlags {
    /// Space is allocated but carries no committed application data yet.
    pub unwritten: bool,
    /// The extent's physical mapping is not known.
    pub unknown: bool,
    /// The extent is delayed-allocated: no stable physical mapping exists.
    pub delalloc: bool,
}

impl ExtentFlags {
    /// No flag set: a committed extent with a stable physical mapping.
    pub open spec fn spec_empty() -> ExtentFlags {
        ExtentFlags { unwritten: false, unknown: false, delalloc: false }
    }

    /// A committed extent sets none of the three flags.
    pub open spec fn clean(self) -> bool {
        !self.unwritten && !self.unknown && !self.delalloc
    }

    /// Flags with nothing set.
    pub fn empty() -> (r: ExtentFlags)
        ensures
            r == ExtentFlags::spec_empty(),
            r.clean(),
    {
        ExtentFlags { unwritten: false, unknown: false, delalloc: false }
    }

    /// Whether the extent is unwritten (allocated, not yet filled).
    pub fn is_unwritten(&self) -> (r: bool)
        ensures
            r == self.unwritten,
    {
        self.unwritten
    }

    /// Whether the extent's mapping is unknown.
    pub fn is_unknown(&self) -> (r: bool)
        ensures
            r == self.unknown,
    {
        self.unknown
    }

    /// Whether the extent is delayed-allocated.
    pub fn is_delalloc(&self) -> (r: bool)
        ensures
            r == self.delalloc,
    {
        self.delalloc
    }
}

/// One contiguous mapping from a file's logical byte range to a physical
/// byte range on the block device.
#[derive(Clone, Copy, Debug, PartialEq, Eq, Structural)]
pub struct Extent {
    /// Byte offset in the file where the extent starts.
    pub logical: u64,
    /// Byte offset on the block device where the extent starts.
    pub physical: u64,
    /// Length of the extent in bytes.
    pub length: u64,
    /// The extent's flags.
    pub flags: ExtentFlags,
}

impl Extent {
    /// One past the last logical byte the extent covers.
    pub open spec fn end(self) -> int {
        self.logical + self.length
    }

    /// Whether logical position `p` lies inside the extent.
    pub open spec fn contains(self, p: int) -> bool {
        self.logical <= p < self.end()
    }

    /// Neither the logical nor the physical range wraps around.
    pub open spec fn no_overflow(self) -> bool {
        &&& self.logical + self.length <= u64::MAX
        &&& self.physical + self.length <= u64::MAX
    }
}

/// What the extent provider promises of a list it returns for a range
/// starting at `offset`: extents do not wrap around, are non-empty, each
/// reaches past `offset`, and they are ascending and non-overlapping.
pub open spec fn wf_extents(s: Seq<Extent>, offset: int) -> bool {
    &&& forall|i: int| 0 <= i < s.len() ==> (#[trigger] s[i]).no_overflow()
    &&& forall|i: int| 0 <= i < s.len() ==> (#[trigger] s[i]).length > 0
    &&& forall|i: int| 0 <= i < s.len() ==> (#[trigger] s[i]).end() > offset
    &&& forall|i: int, j: int|
        0 <= i < j < s.len() ==> (#[trigger] s[i]).end() <= (#[trigger] s[j]).logical
}

/// Whether logical position `p` is backed by a committed, flag-free extent
/// of `s`.  A produced byte at a position without such backing can only
/// have been zero-filled.
#[verifier::opaque]
pub open spec fn covered_by_clean_extent(s: Seq<Extent>, p: int) -> bool {
    exists|i: int| 0 <= i < s.len() && (#[trigger] s[i]).contains(p) && s[i].flags.clean()
}

} // verus!
