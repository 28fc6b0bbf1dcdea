use vstd::prelude::*;

use std::collections::HashMap;

use crate::error::ReadError;

verus! {

broadcast use vstd::std_specs::hash::group_hash_axioms;

/// A map from a filesystem's device identifier to the shared handle of its
/// open block device.  An entry, once created, lives as long as the cache:
/// there is no eviction and no invalidation.  The handle type is left to
/// the caller, so the bookkeeping is independent of how a device is
/// actually opened.
#[verifier::reject_recursive_types(H)]
pub struct DeviceCache<H> {
    map: HashMap<u64, H>,
}

impl<H> View for DeviceCache<H> {
    type V = Map<u64, H>;

    closed spec fn view(&self) -> Map<u64, H> {
        self.map@
    }
}

impl<H> DeviceCache<H> {
    /// An empty cache.
    pub fn new() -> (r: DeviceCache<H>)
        ensures
            r@ == Map::<u64, H>::empty(),
    {
        DeviceCache { map: HashMap::new() }
    }

    /// How many devices are cached.
    pub fn len(&self) -> (r: usize)
        ensures
            r == self@.len(),
    {
        self.map.len()
    }

    /// Whether a handle for `device_id` is cached.
    pub fn contains(&self, device_id: u64) -> (r: bool)
        ensures
            r == self@.contains_key(device_id),
    {
        self.map.contains_key(&device_id)
    }

    /// The cached handle for `device_id`, if any.
    pub fn lookup(&self, device_id: u64) -> (r: Option<&H>)
        ensures
            match r {
                Some(h) => self@.contains_key(device_id) && *h == self@[device_id],
                None => !self@.contains_key(device_id),
            },
    {
        self.map.get(&device_id)
    }

    /// Make sure a handle for `device_id` is cached, opening one through
    /// `open` only when none exists yet.  This is the creation half of the
    /// double-checked protocol: a caller that already holds the exclusive
    /// side of a lock re-checks here, so a handle that a concurrent caller
    /// inserted in the meantime is reused and at most one open ever
    /// happens per device id.
    pub fn ensure_open<F: FnOnce() -> Result<H, ReadError>>(
        &mut self,
        device_id: u64,
        open: F,
    ) -> (r: Result<(), ReadError>)
        requires
            call_requires(open, ()),
        ensures
            old(self)@.contains_key(device_id) ==> r is Ok && final(self)@ == old(self)@,
            !old(self)@.contains_key(device_id) ==> match r {
                Ok(_) => exists|h: H|
                    #[trigger] call_ensures(open, (), Ok(h)) && final(self)@ == old(self)@.insert(
                        device_id,
                        h,
                    ),
                Err(e) => call_ensures(open, (), Err(e)) && final(self)@ == old(self)@,
            },
            r is Ok ==> final(self)@.contains_key(device_id),
    {
        if self.map.contains_key(&device_id) {
            return Ok(());
        }
        match open() {
            Ok(handle) => {
                let ghost h = handle;
                self.map.insert(device_id, handle);
                proof {
                    assert(call_ensures(open, (), Ok(h)) && self@ == old(self)@.insert(
                        device_id,
                        h,
                    ));
                }
                Ok(())
            },
            Err(e) => Err(e),
        }
    }
}

/// Drop every cached handle.
pub fn clear_cache<H>(cache: &mut DeviceCache<H>)
    ensures
        final(cache)@ == Map::<u64, H>::empty(),
{
    cache.map.clear()
}

} // verus!
