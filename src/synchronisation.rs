//! Synchronisation for a single hart running with interrupts disabled.
use vstd::prelude::*;

verus! {

/// Exclusive access to some data.
pub trait Mutex {
    /// The data guarded.
    type Data;

    /// Grants exclusive access to the data for as long as the returned
    /// reference lives.
    fn lock(&mut self) -> (r: &mut Self::Data);
}

/// A lock that does no locking: the loader runs on one hart with interrupts
/// disabled, and exclusive access is what `&mut` already guarantees. It
/// stands where code expects a lock type.
pub struct NullLock<T> {
    data: T,
}

impl<T> NullLock<T> {
    /// The data guarded by this lock.
    pub closed spec fn inner(&self) -> T {
        self.data
    }

    /// A lock guarding `data`.
    pub fn new(data: T) -> (r: Self)
        ensures
            r.inner() == data,
    {
        NullLock { data }
    }

    /// Gives the guarded data back.
    pub fn into_inner(self) -> (r: T)
        ensures
            r == self.inner(),
    {
        self.data
    }

    /// Shared access to the guarded data.
    pub fn get(&self) -> (r: &T)
        ensures
            *r == self.inner(),
    {
        &self.data
    }
}

impl<T> Mutex for NullLock<T> {
    type Data = T;

    fn lock(&mut self) -> (r: &mut T)
        ensures
            *r == old(self).inner(),
            final(self).inner() == *final(r),
    {
        &mut self.data
    }
}

} // verus!
