use vstd::prelude::*;

verus! {

/// Options controlling how a read behaves.  A value is immutable for the
/// duration of one read; the engine never changes it.
#[derive(Debug, Clone)]
pub struct Options {
    /// Share one open device handle per filesystem through the process-wide
    /// device cache.
    pub enable_cache: bool,
    /// Zero-fill holes (and hole-like extents) instead of stopping early.
    pub fill_holes: bool,
    /// Zero-fill unwritten extents instead of reading the raw device bytes.
    pub zero_unwritten: bool,
    /// Permit an ordinary file read when every byte in range is backed by a
    /// committed, flag-free extent.
    pub allow_fallback: bool,
    /// Demand that the full requested length is produced.
    pub read_exact: bool,
    /// Skip the actual device I/O and only exercise the extent logic.
    pub dry_run: bool,
}

impl Options {
    /// The configuration a fresh `Options` carries: caching on, every other
    /// switch off.
    pub open spec fn spec_default() -> Options {
        Options {
            enable_cache: true,
            fill_holes: false,
            zero_unwritten: false,
            allow_fallback: false,
            read_exact: false,
            dry_run: false,
        }
    }

    /// Create options with the default configuration.
    pub fn new() -> (r: Options)
        ensures
            r == Options::spec_default(),
    {
        Options {
            enable_cache: true,
            fill_holes: false,
            zero_unwritten: false,
            allow_fallback: false,
            read_exact: false,
            dry_run: false,
        }
    }

    /// Enable or disable the shared device cache.
    pub fn with_cache(self, enable: bool) -> (r: Options)
        ensures
            r == (Options { enable_cache: enable, ..self }),
    {
        Options { enable_cache: enable, ..self }
    }

    /// Enable or disable zero-filling holes.
    pub fn with_fill_holes(self, fill: bool) -> (r: Options)
        ensures
            r == (Options { fill_holes: fill, ..self }),
    {
        Options { fill_holes: fill, ..self }
    }

    /// Enable or disable zero-filling unwritten extents.
    pub fn with_zero_unwritten(self, zero: bool) -> (r: Options)
        ensures
            r == (Options { zero_unwritten: zero, ..self }),
    {
        Options { zero_unwritten: zero, ..self }
    }

    /// Enable or disable falling back to an ordinary file read when safe.
    pub fn with_allow_fallback(self, allow: bool) -> (r: Options)
        ensures
            r == (Options { allow_fallback: allow, ..self }),
    {
        Options { allow_fallback: allow, ..self }
    }

    /// Enable or disable demanding the exact requested length.
    pub fn with_read_exact(self, exact: bool) -> (r: Options)
        ensures
            r == (Options { read_exact: exact, ..self }),
    {
        Options { read_exact: exact, ..self }
    }

    /// Enable or disable the dry-run mode.
    pub fn with_dry_run(self, dry_run: bool) -> (r: Options)
        ensures
            r == (Options { dry_run: dry_run, ..self }),
    {
        Options { dry_run: dry_run, ..self }
    }
}

impl Default for Options {
    /// Same configuration as `Options::new`.
    fn default() -> (r: Options)
        ensures
            r == Options::spec_default(),
    {
        Options::new()
    }
}

} // verus!
