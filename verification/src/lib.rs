//! Read file bytes straight from the backing block device, guided by the
//! file's extent map.
//!
//! The crate is organized around a small, fully specified read engine:
//! given the list of extents that back a byte range, it decides for every
//! sub-range whether to zero-fill (holes, unwritten extents), stop early,
//! or ask for a positioned read at the extent's physical offset.  The
//! engine is parameterized by a device-read function, so the policy and
//! the physical-offset arithmetic are verified independently of how the
//! device is actually opened and read.
//!
//! A companion cache maps a filesystem's device identifier to an open
//! device handle, so that repeated reads on the same filesystem share one
//! handle; its bookkeeping guarantees at most one handle per device id.

mod align;
mod cache;
mod error;
mod extent;
mod options;
mod reader;
mod state;

pub use align::{align_down, align_up};
pub use cache::{clear_cache, DeviceCache};
pub use error::ReadError;
pub use extent::{covered_by_clean_extent, wf_extents, Extent, ExtentFlags};
pub use options::Options;
pub use reader::{
    can_use_fallback, copy_into, fallback_eligible, fallback_eligible_from,
    lemma_fallback_eligible_iff_fully_covered, physical_offset, planned_from, read_from_device,
    route_read, segment_end, segment_matches_device, segment_start, zero_fill, Route,
};
pub use state::State;
