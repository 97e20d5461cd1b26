//! Device drivers: the logic that does not touch hardware registers, and
//! the registry that matches devices to drivers by compatible string.
use vstd::prelude::*;

use crate::collections::flat_map::{FlatMap, InsertStrategy, MapKey};
use vstd::utf8::encode_utf8;

pub mod aic;
pub mod gpio;
pub mod hid;
pub mod interfaces;
pub mod spi;
pub mod virtio;

verus! {

#[derive(Debug)]
pub enum Error {
    DriverAlreadyRegistered(String),
    NoCompatibleInDevice,
    NoDriverForDevice,
    /// What a driver reported when it probed a device.
    DeviceSpecificError(String),
}

/// The key under which the driver for `compatible` is kept.
pub open spec fn compatible_key(compatible: Seq<char>) -> Seq<u8> {
    encode_utf8(compatible).push(0xffu8)
}

/// The drivers, each under the compatible string it handles.
pub struct DriverRegistry<D> {
    drivers: FlatMap<String, D>,
}

impl<D> DriverRegistry<D> {
    pub closed spec fn view(&self) -> Map<Seq<u8>, D> {
        self.drivers@
    }

    pub closed spec fn wf(&self) -> bool {
        self.drivers.wf() && self.drivers.spec_capacity() > 0
    }

    /// The registry has room for one more driver.
    pub closed spec fn has_room(&self) -> bool {
        &&& self.drivers.spec_len() < usize::MAX / 100
        &&& self.drivers.spec_capacity() <= usize::MAX / 64
    }

    pub fn new() -> (registry: Self)
        ensures
            registry.wf(),
            registry.has_room(),
            registry@ == Map::<Seq<u8>, D>::empty(),
    {
        Self { drivers: FlatMap::new() }
    }

    /// Registers `driver` for devices compatible with `compatible`. Fails,
    /// changing nothing, when a driver is registered for it already.
    pub fn register_driver(&mut self, compatible: &str, driver: D) -> (result: Result<(), Error>)
        requires
            old(self).wf(),
            old(self).has_room(),
        ensures
            final(self).wf(),
            old(self)@.contains_key(compatible_key(compatible@)) ==> {
                &&& result matches Err(Error::DriverAlreadyRegistered(s)) && s@ == compatible@
                &&& final(self)@ == old(self)@
            },
            !old(self)@.contains_key(compatible_key(compatible@)) ==> {
                &&& result is Ok
                &&& final(self)@ == old(self)@.insert(compatible_key(compatible@), driver)
            },
    {
        let key = compatible.to_string();
        let inserted = self.drivers.insert_with_strategy(key, driver, InsertStrategy::ErrorOnDuplicate);
        match inserted {
            Ok(()) => Ok(()),
            Err(_) => Err(Error::DriverAlreadyRegistered(compatible.to_string())),
        }
    }

    /// Probes a device with the driver of each of its compatible strings in
    /// turn, stopping at the first error a driver reports. The device is
    /// taken when at least one driver probed it and none failed; without
    /// compatible strings, or without a driver for any of them, it cannot be
    /// probed.
    pub fn probe_device<F>(&self, compatible_list: Option<&Vec<String>>, probe: F) -> (result:
        Result<(), Error>) where F: Fn(&D) -> Result<(), Error>
        requires
            self.wf(),
            forall|d: &D| #[trigger] probe.requires((d,)),
        ensures
            compatible_list is None ==> (result matches Err(Error::NoCompatibleInDevice)),
            compatible_list is Some ==> {
                let l = compatible_list->Some_0@;
                &&& !any_registered(self@, l) ==> (result matches Err(Error::NoDriverForDevice))
                &&& any_registered(self@, l) ==> (result is Ok && forall|i: int|
                    0 <= i < l.len() && #[trigger] registered(self@, l, i) ==> probe.ensures(
                        (&self@[compatible_key(l[i]@)],),
                        Ok(()),
                    )) || (result is Err && exists|k: int|
                    0 <= k < l.len() && #[trigger] registered(self@, l, k) && probe.ensures(
                        (&self@[compatible_key(l[k]@)],),
                        result,
                    ) && forall|j: int|
                        0 <= j < k && #[trigger] registered(self@, l, j) ==> probe.ensures(
                            (&self@[compatible_key(l[j]@)],),
                            Ok(()),
                        ))
            },
    {
        let list = match compatible_list {
            Some(list) => list,
            None => {
                return Err(Error::NoCompatibleInDevice);
            },
        };
        let ghost l = list@;
        let mut probed_any = false;
        let mut i: usize = 0;
        while i < list.len()
            invariant
                self.wf(),
                forall|d: &D| #[trigger] probe.requires((d,)),
                compatible_list == Some(list),
                l == list@,
                i <= l.len(),
                probed_any == exists|j: int| 0 <= j < i && #[trigger] registered(self@, l, j),
                forall|j: int|
                    0 <= j < i && #[trigger] registered(self@, l, j) ==> probe.ensures(
                        (&self@[compatible_key(l[j]@)],),
                        Ok(()),
                    ),
            decreases l.len() - i,
        {
            proof {
                let k = compatible_key(l[i as int]@);
                assert(l[i as int].key_bytes() == k);
                assert(compatible_list->Some_0@[i as int] == l[i as int]);
            }
            match self.drivers.lookup(&list[i]) {
                Some(driver) => {
                    let probed = probe(driver);
                    assert(registered(self@, l, i as int));
                    assert(*driver == self@[compatible_key(l[i as int]@)]);
                    assert(probe.ensures((driver,), probed));
                    match probed {
                        Ok(done) => {
                            assert(probed == Ok::<(), Error>(()));
                            assert(probe.ensures((driver,), Ok(())));
                            assert(probe.ensures((&self@[compatible_key(l[i as int]@)],), Ok(())));
                            probed_any = true;
                        },
                        Err(e) => {
                            assert(probe.ensures((&self@[compatible_key(l[i as int]@)],), Err(e)));
                            return Err(e);
                        },
                    }
                },
                None => {
                    assert(!registered(self@, l, i as int));
                },
            }
            i = i + 1;
        }
        if probed_any {
            Ok(())
        } else {
            Err(Error::NoDriverForDevice)
        }
    }
}

/// Whether a driver is registered for string `i` of the list `l`.
pub open spec fn registered<D>(m: Map<Seq<u8>, D>, l: Seq<String>, i: int) -> bool {
    m.contains_key(compatible_key(l[i]@))
}

/// Whether a driver is registered for some string of the list `l`.
pub open spec fn any_registered<D>(m: Map<Seq<u8>, D>, l: Seq<String>) -> bool {
    exists|i: int| 0 <= i < l.len() && #[trigger] registered(m, l, i)
}

} // verus!
