use std::cell::RefCell;

use blkreader::{
    can_use_fallback, physical_offset, read_from_device, route_read, Extent, ExtentFlags, Options,
    ReadError, Route,
};

fn clean_extent(logical: u64, physical: u64, length: u64) -> Extent {
    Extent {
        logical,
        physical,
        length,
        flags: ExtentFlags::empty(),
    }
}

fn unwritten_extent(logical: u64, physical: u64, length: u64) -> Extent {
    Extent {
        logical,
        physical,
        length,
        flags: ExtentFlags {
            unwritten: true,
            unknown: false,
            delalloc: false,
        },
    }
}

#[test]
fn test_can_use_fallback() {
    // Empty extents - cannot fallback
    assert!(!can_use_fallback(&vec![], 0, 100));

    // Normal extent covering range - can fallback
    let extents = vec![clean_extent(0, 1000, 4096)];
    assert!(can_use_fallback(&extents, 0, 100));

    // Unwritten extent - cannot fallback
    let extents = vec![unwritten_extent(0, 1000, 4096)];
    assert!(!can_use_fallback(&extents, 0, 100));

    // Hole at start - cannot fallback
    let extents = vec![clean_extent(100, 1000, 4096)];
    assert!(!can_use_fallback(&extents, 0, 200));
}

#[test]
fn route_of_empty_extent_list_is_unexpected_eof() {
    let opts = Options::new();
    assert_eq!(route_read(&vec![], 0, 100, &opts), Route::UnexpectedEof);
    let opts = Options::new().with_allow_fallback(true);
    assert_eq!(route_read(&vec![], 7, 1, &opts), Route::UnexpectedEof);
}

#[test]
fn route_picks_fallback_only_when_allowed_and_safe() {
    let extents = vec![clean_extent(0, 1000, 4096)];
    let opts = Options::new().with_allow_fallback(true);
    assert_eq!(route_read(&extents, 0, 100, &opts), Route::Fallback);
    let opts = Options::new();
    assert_eq!(route_read(&extents, 0, 100, &opts), Route::Direct);
    let gap = vec![clean_extent(100, 1000, 4096)];
    let opts = Options::new().with_allow_fallback(true);
    assert_eq!(route_read(&gap, 0, 200, &opts), Route::Direct);
}

#[test]
fn empty_buffer_reads_zero_bytes_and_touches_nothing() {
    let extents = vec![clean_extent(0, 1000, 4096)];
    let mut buf: Vec<u8> = Vec::new();
    let dev = |_p: u64, _l: usize| -> Result<Vec<u8>, ReadError> {
        panic!("no device read may happen for an empty buffer");
    };
    let n = read_from_device(&mut buf, 0, &extents, &Options::new(), dev).unwrap();
    assert_eq!(n, 0);
}

#[test]
fn whole_range_in_one_extent_reads_at_physical_offset() {
    // one extent starting at logical 0, physical 1000; request 100 bytes at 0
    let extents = vec![clean_extent(0, 1000, 4096)];
    let calls: RefCell<Vec<(u64, usize)>> = RefCell::new(Vec::new());
    let dev = |p: u64, l: usize| -> Result<Vec<u8>, ReadError> {
        calls.borrow_mut().push((p, l));
        Ok(vec![0xABu8; l])
    };
    let mut buf: Vec<u8> = vec![0u8; 100];
    let n = read_from_device(&mut buf, 0, &extents, &Options::new().with_cache(false), dev)
        .unwrap();
    assert_eq!(n, 100);
    assert_eq!(calls.borrow().as_slice(), &[(1000u64, 100usize)]);
    assert!(buf.iter().all(|b| *b == 0xAB));
}

#[test]
fn request_starting_inside_an_extent_shifts_the_physical_offset() {
    let extents = vec![clean_extent(0, 1000, 4096)];
    let calls: RefCell<Vec<(u64, usize)>> = RefCell::new(Vec::new());
    let dev = |p: u64, l: usize| -> Result<Vec<u8>, ReadError> {
        calls.borrow_mut().push((p, l));
        Ok(vec![0x11u8; l])
    };
    let mut buf: Vec<u8> = vec![0u8; 10];
    let n = read_from_device(&mut buf, 50, &extents, &Options::new(), dev).unwrap();
    assert_eq!(n, 10);
    assert_eq!(calls.borrow().as_slice(), &[(1050u64, 10usize)]);
}

#[test]
fn physical_offset_follows_the_extent_mapping() {
    let e = clean_extent(100, 1000, 4096);
    assert_eq!(physical_offset(&e, 100), 1000);
    assert_eq!(physical_offset(&e, 150), 1050);
    assert_eq!(physical_offset(&e, 4195), 5095);
}

#[test]
fn hole_stops_the_read_unless_holes_are_filled() {
    // extent starts at logical 100; request 200 bytes at 0
    let extents = vec![clean_extent(100, 1000, 4096)];
    let calls: RefCell<Vec<(u64, usize)>> = RefCell::new(Vec::new());
    let dev = |p: u64, l: usize| -> Result<Vec<u8>, ReadError> {
        calls.borrow_mut().push((p, l));
        Ok(vec![0xCDu8; l])
    };

    // fill_holes off: immediate successful stop at the hole
    let mut buf: Vec<u8> = vec![0xFFu8; 200];
    let n = read_from_device(&mut buf, 0, &extents, &Options::new(), &dev).unwrap();
    assert_eq!(n, 0);
    assert!(calls.borrow().is_empty());

    // fill_holes on: 100 zero bytes, then 100 bytes from physical 1000
    let mut buf: Vec<u8> = vec![0xFFu8; 200];
    let opts = Options::new().with_fill_holes(true);
    let n = read_from_device(&mut buf, 0, &extents, &opts, &dev).unwrap();
    assert_eq!(n, 200);
    assert!(buf[..100].iter().all(|b| *b == 0));
    assert!(buf[100..].iter().all(|b| *b == 0xCD));
    assert_eq!(calls.borrow().as_slice(), &[(1000u64, 100usize)]);
}

#[test]
fn unwritten_extent_stops_or_zero_fills() {
    // a single unwritten extent spanning the whole requested range
    let extents = vec![unwritten_extent(0, 1000, 4096)];
    let dev = |_p: u64, _l: usize| -> Result<Vec<u8>, ReadError> {
        panic!("an unwritten extent must never reach the device");
    };

    let mut buf: Vec<u8> = vec![0xFFu8; 300];
    let n = read_from_device(&mut buf, 0, &extents, &Options::new(), &dev).unwrap();
    assert_eq!(n, 0);

    let mut buf: Vec<u8> = vec![0xFFu8; 300];
    let opts = Options::new().with_zero_unwritten(true);
    let n = read_from_device(&mut buf, 0, &extents, &opts, &dev).unwrap();
    assert_eq!(n, 300);
    assert!(buf.iter().all(|b| *b == 0));
}

#[test]
fn unknown_and_delalloc_extents_follow_the_hole_policy() {
    let mut e = clean_extent(0, 1000, 4096);
    e.flags = ExtentFlags {
        unwritten: false,
        unknown: true,
        delalloc: false,
    };
    let extents = vec![e];
    let dev = |_p: u64, _l: usize| -> Result<Vec<u8>, ReadError> {
        panic!("an unknown extent must never reach the device");
    };

    let mut buf: Vec<u8> = vec![0xFFu8; 64];
    let n = read_from_device(&mut buf, 0, &extents, &Options::new(), &dev).unwrap();
    assert_eq!(n, 0);

    let mut buf: Vec<u8> = vec![0xFFu8; 64];
    let opts = Options::new().with_fill_holes(true);
    let n = read_from_device(&mut buf, 0, &extents, &opts, &dev).unwrap();
    assert_eq!(n, 64);
    assert!(buf.iter().all(|b| *b == 0));
}

#[test]
fn gap_between_extents_is_zero_filled() {
    let extents = vec![clean_extent(0, 1000, 50), clean_extent(60, 2000, 40)];
    let calls: RefCell<Vec<(u64, usize)>> = RefCell::new(Vec::new());
    let dev = |p: u64, l: usize| -> Result<Vec<u8>, ReadError> {
        calls.borrow_mut().push((p, l));
        Ok(vec![0x77u8; l])
    };

    let mut buf: Vec<u8> = vec![0xFFu8; 100];
    let opts = Options::new().with_fill_holes(true);
    let n = read_from_device(&mut buf, 0, &extents, &opts, &dev).unwrap();
    assert_eq!(n, 100);
    assert!(buf[..50].iter().all(|b| *b == 0x77));
    assert!(buf[50..60].iter().all(|b| *b == 0));
    assert!(buf[60..].iter().all(|b| *b == 0x77));
    assert_eq!(calls.borrow().as_slice(), &[(1000u64, 50usize), (2000u64, 40usize)]);

    // without fill_holes the walk stops at the gap
    let mut buf: Vec<u8> = vec![0xFFu8; 100];
    let n = read_from_device(&mut buf, 0, &extents, &Options::new(), &dev).unwrap();
    assert_eq!(n, 50);
}

#[test]
fn short_device_answer_is_a_successful_partial_read() {
    let extents = vec![clean_extent(0, 1000, 100)];
    let dev = |_p: u64, l: usize| -> Result<Vec<u8>, ReadError> { Ok(vec![0x55u8; l.min(40)]) };

    let mut buf: Vec<u8> = vec![0xFFu8; 100];
    let n = read_from_device(&mut buf, 0, &extents, &Options::new(), &dev).unwrap();
    assert_eq!(n, 40);
    assert!(buf[..40].iter().all(|b| *b == 0x55));
    assert!(buf[40..].iter().all(|b| *b == 0xFF));

    // under fill_holes the remainder after the short read is zero-filled
    let mut buf: Vec<u8> = vec![0xFFu8; 100];
    let opts = Options::new().with_fill_holes(true);
    let n = read_from_device(&mut buf, 0, &extents, &opts, &dev).unwrap();
    assert_eq!(n, 100);
    assert!(buf[..40].iter().all(|b| *b == 0x55));
    assert!(buf[40..].iter().all(|b| *b == 0));
}

#[test]
fn trailing_hole_at_the_exact_end_is_a_no_op() {
    // the extent covers the requested range exactly; fill_holes adds nothing
    let extents = vec![clean_extent(0, 1000, 100)];
    let dev = |_p: u64, l: usize| -> Result<Vec<u8>, ReadError> { Ok(vec![0x66u8; l]) };
    let mut buf: Vec<u8> = vec![0u8; 100];
    let opts = Options::new().with_fill_holes(true);
    let n = read_from_device(&mut buf, 0, &extents, &opts, &dev).unwrap();
    assert_eq!(n, 100);
    assert!(buf.iter().all(|b| *b == 0x66));
}

#[test]
fn trailing_uncovered_range_follows_the_hole_policy() {
    let extents = vec![clean_extent(0, 1000, 50)];
    let dev = |_p: u64, l: usize| -> Result<Vec<u8>, ReadError> { Ok(vec![0x42u8; l]) };

    let mut buf: Vec<u8> = vec![0xFFu8; 80];
    let n = read_from_device(&mut buf, 0, &extents, &Options::new(), &dev).unwrap();
    assert_eq!(n, 50);

    let mut buf: Vec<u8> = vec![0xFFu8; 80];
    let opts = Options::new().with_fill_holes(true);
    let n = read_from_device(&mut buf, 0, &extents, &opts, &dev).unwrap();
    assert_eq!(n, 80);
    assert!(buf[50..].iter().all(|b| *b == 0));
}

#[test]
fn device_error_propagates_verbatim() {
    let extents = vec![clean_extent(0, 1000, 100)];
    let dev =
        |_p: u64, _l: usize| -> Result<Vec<u8>, ReadError> { Err(ReadError::PermissionDenied) };
    let mut buf: Vec<u8> = vec![0u8; 100];
    let r = read_from_device(&mut buf, 0, &extents, &Options::new(), &dev);
    assert_eq!(r, Err(ReadError::PermissionDenied));

    let dev = |_p: u64, _l: usize| -> Result<Vec<u8>, ReadError> { Err(ReadError::Io) };
    let mut buf: Vec<u8> = vec![0u8; 100];
    let r = read_from_device(&mut buf, 0, &extents, &Options::new(), &dev);
    assert_eq!(r, Err(ReadError::Io));
}
