use std::cell::RefCell;

use blkreader::{align_down, align_up, clear_cache, DeviceCache, ReadError};

#[test]
fn get_or_create_opens_once_per_device_id() {
    // several callers asking for the same device id cause a single open
    let opens: RefCell<u32> = RefCell::new(0);
    let mut cache: DeviceCache<String> = DeviceCache::new();

    for _ in 0..4 {
        cache
            .ensure_open(7, || {
                *opens.borrow_mut() += 1;
                Ok(String::from("/dev/sda"))
            })
            .unwrap();
        let handle = cache.lookup(7).unwrap();
        assert_eq!(handle, "/dev/sda");
    }
    assert_eq!(*opens.borrow(), 1);
    assert_eq!(cache.len(), 1);

    // a different device id gets its own open
    cache
        .ensure_open(9, || {
            *opens.borrow_mut() += 1;
            Ok(String::from("/dev/sdb"))
        })
        .unwrap();
    assert_eq!(*opens.borrow(), 2);
    assert_eq!(cache.len(), 2);
    assert_eq!(cache.lookup(7).unwrap(), "/dev/sda");
    assert_eq!(cache.lookup(9).unwrap(), "/dev/sdb");
}

#[test]
fn ensure_open_on_a_cached_id_never_calls_open() {
    let mut cache: DeviceCache<u32> = DeviceCache::new();
    cache.ensure_open(1, || Ok(10u32)).unwrap();
    cache
        .ensure_open(1, || -> Result<u32, ReadError> {
            panic!("a cached device id must not be opened again");
        })
        .unwrap();
    assert_eq!(*cache.lookup(1).unwrap(), 10);
}

#[test]
fn failed_open_leaves_the_cache_unchanged() {
    let mut cache: DeviceCache<u32> = DeviceCache::new();
    let r = cache.ensure_open(3, || Err(ReadError::PermissionDenied));
    assert_eq!(r, Err(ReadError::PermissionDenied));
    assert!(cache.lookup(3).is_none());
    assert!(!cache.contains(3));
    assert_eq!(cache.len(), 0);
}

#[test]
fn cleared_cache_forgets_every_handle() {
    let mut cache: DeviceCache<u32> = DeviceCache::new();
    cache.ensure_open(1, || Ok(10u32)).unwrap();
    cache.ensure_open(2, || Ok(20u32)).unwrap();
    assert_eq!(cache.len(), 2);
    clear_cache(&mut cache);
    assert_eq!(cache.len(), 0);
    assert!(cache.lookup(1).is_none());
}

#[test]
fn alignment_helpers_round_to_the_enclosing_block() {
    assert_eq!(align_down(0, 512), 0);
    assert_eq!(align_down(511, 512), 0);
    assert_eq!(align_down(512, 512), 512);
    assert_eq!(align_down(513, 512), 512);
    assert_eq!(align_up(0, 512), 0);
    assert_eq!(align_up(1, 512), 512);
    assert_eq!(align_up(512, 512), 512);
    assert_eq!(align_up(513, 512), 1024);
}
