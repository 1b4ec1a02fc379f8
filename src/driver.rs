//! The registry of device drivers, initialised in registration order.
use vstd::prelude::*;
use crate::synchronisation::{Mutex, NullLock};

verus! {

/// How many drivers the registry holds.
pub const NUM_DRIVERS: usize = 5;

/// A device driver: its friendly name and its initialisation.
pub trait DeviceDriver {
    /// The driver's friendly name.
    fn name(&self) -> &'static str;

    /// Brings the device up; the default does nothing.
    fn init(&self) -> Result<(), &'static str> {
        Ok(())
    }
}

/// A driver, and what to run once it is initialised.
pub struct DeviceDriverDescriptor<D, C> {
    pub device_driver: D,
    pub post_init_callback: Option<C>,
}

impl<D, C> DeviceDriverDescriptor<D, C> {
    /// A descriptor of `device_driver` with an optional post-initialisation
    /// callback.
    pub fn new(device_driver: D, post_init_callback: Option<C>) -> (r: Self)
        ensures
            r.device_driver == device_driver,
            r.post_init_callback == post_init_callback,
    {
        DeviceDriverDescriptor { device_driver, post_init_callback }
    }
}

/// The registered descriptors, in registration order.
pub struct DriverManagerInner<D, C> {
    next_index: usize,
    descriptors: Vec<DeviceDriverDescriptor<D, C>>,
}

impl<D, C> DriverManagerInner<D, C> {
    /// The registered descriptors.
    pub closed spec fn view(&self) -> Seq<DeviceDriverDescriptor<D, C>> {
        self.descriptors@
    }

    /// `next_index` counts the descriptors, which never exceed the capacity.
    pub closed spec fn wf(&self) -> bool {
        &&& self.next_index == self.descriptors@.len()
        &&& self.next_index <= NUM_DRIVERS
    }

    /// An empty registry.
    pub fn new() -> (r: Self)
        ensures
            r.wf(),
            r.view() == Seq::<DeviceDriverDescriptor<D, C>>::empty(),
    {
        DriverManagerInner { next_index: 0, descriptors: Vec::new() }
    }
}

/// The driver registry behind its lock.
pub struct DriverManager<D, C> {
    inner: NullLock<DriverManagerInner<D, C>>,
}

impl<D, C> DriverManager<D, C> {
    /// The registered descriptors, in registration order.
    pub closed spec fn descriptors(&self) -> Seq<DeviceDriverDescriptor<D, C>> {
        self.inner.inner().view()
    }

    /// The registry's invariant.
    pub closed spec fn wf(&self) -> bool {
        self.inner.inner().wf()
    }

    /// An empty registry.
    pub fn new() -> (r: Self)
        ensures
            r.wf(),
            r.descriptors() == Seq::<DeviceDriverDescriptor<D, C>>::empty(),
    {
        DriverManager { inner: NullLock::new(DriverManagerInner::new()) }
    }

    /// The number of registered descriptors.
    pub fn len(&self) -> (r: usize)
        requires
            self.wf(),
        ensures
            r == self.descriptors().len(),
    {
        self.inner.get().next_index
    }

    /// Whether the registry has room for no more descriptors.
    pub fn is_full(&self) -> (r: bool)
        requires
            self.wf(),
        ensures
            r == (self.descriptors().len() >= NUM_DRIVERS),
    {
        self.inner.get().next_index >= NUM_DRIVERS
    }

    /// Appends `descriptor` to the registry, which must not be full.
    pub fn register_driver(&mut self, descriptor: DeviceDriverDescriptor<D, C>)
        requires
            old(self).wf(),
            old(self).descriptors().len() < NUM_DRIVERS,
        ensures
            final(self).wf(),
            final(self).descriptors() == old(self).descriptors().push(descriptor),
    {
        let inner = self.inner.lock();
        inner.descriptors.push(descriptor);
        inner.next_index = inner.next_index + 1;
    }

    /// The descriptor registered `i`-th.
    pub fn descriptor(&self, i: usize) -> (r: &DeviceDriverDescriptor<D, C>)
        requires
            self.wf(),
            i < self.descriptors().len(),
        ensures
            *r == self.descriptors()[i as int],
    {
        &self.inner.get().descriptors[i]
    }
}

} // verus!
