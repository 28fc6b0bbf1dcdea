use blkreader::{clear_cache, DeviceCache, Extent, ExtentFlags, Options, State};

#[test]
fn test_default_options() {
    let opts = Options::default();
    assert!(opts.enable_cache);
    assert!(!opts.fill_holes);
    assert!(!opts.zero_unwritten);
    assert!(!opts.allow_fallback);
    assert!(!opts.read_exact);
    assert!(!opts.dry_run);
}

#[test]
fn test_builder_pattern() {
    let opts = Options::new()
        .with_cache(false)
        .with_fill_holes(true)
        .with_zero_unwritten(true)
        .with_allow_fallback(true)
        .with_read_exact(true)
        .with_dry_run(true);

    assert!(!opts.enable_cache);
    assert!(opts.fill_holes);
    assert!(opts.zero_unwritten);
    assert!(opts.allow_fallback);
    assert!(opts.read_exact);
    assert!(opts.dry_run);
}

#[test]
fn test_options_builder() {
    let opts = Options::new()
        .with_cache(false)
        .with_fill_holes(true)
        .with_zero_unwritten(true)
        .with_allow_fallback(true);

    assert!(!opts.enable_cache);
    assert!(opts.fill_holes);
    assert!(opts.zero_unwritten);
    assert!(opts.allow_fallback);
}

#[test]
fn test_state_new() {
    let state = State::new(
        String::from("/dev/sda"),
        vec![Extent {
            logical: 0,
            physical: 1000,
            length: 4096,
            flags: ExtentFlags::empty(),
        }],
        4096,
        false,
    );

    assert_eq!(state.block_device_path, String::from("/dev/sda"));
    assert_eq!(state.extents.len(), 1);
    assert_eq!(state.bytes_read, 4096);
    assert!(!state.used_fallback);
}

#[test]
fn test_state_fallback() {
    let state = State::fallback(1024);

    assert!(state.block_device_path.is_empty());
    assert!(state.extents.is_empty());
    assert_eq!(state.bytes_read, 1024);
    assert!(state.used_fallback);
}

#[test]
fn test_cache_operations() {
    // The cache can be emptied without any entry ever having been made.
    let mut cache: DeviceCache<u64> = DeviceCache::new();
    clear_cache(&mut cache);
    assert_eq!(cache.len(), 0);
}
