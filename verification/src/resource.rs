//! Singleton resource slots with non-blocking guarded access.

use vstd::prelude::*;

verus! {

/// Implemented by every type stored as a world singleton.
pub trait Resource {

}

/// Outcome of a guard acquisition on a resource slot.
#[derive(Clone, Copy, PartialEq, Eq, Structural, Debug)]
pub enum ResourceFetchResult {
    /// The guard was acquired.
    Success,
    /// The slot is presently held incompatibly; the caller does not wait.
    Occupied,
    /// The resource type was never registered; a hard skip, not a retry.
    DoesNotExist,
}

/// One singleton slot for a resource of type `R`, created on demand, with
/// its guard accounting: any number of readers, or one writer, never both.
pub struct ResourceStore<R> where R: Resource {
    slot: Option<R>,
    readers: usize,
    writer: bool,
}

impl<R> ResourceStore<R> where R: Resource {
    pub closed spec fn value_opt(self) -> Option<R> {
        self.slot
    }

    pub closed spec fn readers_spec(self) -> nat {
        self.readers as nat
    }

    pub closed spec fn writer_spec(self) -> bool {
        self.writer
    }

    /// Whether an instance currently lives in the slot.
    pub open spec fn present(self) -> bool {
        self.value_opt() is Some
    }

    /// The instance currently in the slot.
    pub open spec fn value(self) -> R {
        self.value_opt()->0
    }

    /// No guard of any kind is currently held.
    pub open spec fn lock_free(self) -> bool {
        self.readers_spec() == 0 && !self.writer_spec()
    }

    /// What a read acquisition returns in this state.
    pub open spec fn acquire_read_result(self) -> ResourceFetchResult {
        if !self.present() {
            ResourceFetchResult::DoesNotExist
        } else if self.writer_spec() {
            ResourceFetchResult::Occupied
        } else {
            ResourceFetchResult::Success
        }
    }

    /// What a write acquisition returns in this state.
    pub open spec fn acquire_write_result(self) -> ResourceFetchResult {
        if !self.present() {
            ResourceFetchResult::DoesNotExist
        } else if self.writer_spec() || self.readers_spec() > 0 {
            ResourceFetchResult::Occupied
        } else {
            ResourceFetchResult::Success
        }
    }

    /// An empty, unregistered slot.
    pub fn new() -> (r: Self)
        ensures
            !r.present(),
            r.lock_free(),
    {
        ResourceStore { slot: None, readers: 0, writer: false }
    }

    /// Registers the singleton instance; a second registration while one is
    /// present changes nothing.
    pub fn add_resource(&mut self, value: R)
        ensures
            final(self).present(),
            final(self).readers_spec() == old(self).readers_spec(),
            final(self).writer_spec() == old(self).writer_spec(),
            old(self).present() ==> final(self).value_opt() == old(self).value_opt(),
            !old(self).present() ==> final(self).value_opt() == Some(value),
    {
        if self.slot.is_some() {
            return;
        }
        self.slot = Some(value);
    }

    /// Removes and returns the instance; the slot must be idle, since
    /// structural edits only run against an otherwise-idle world.
    pub fn remove_resource(&mut self) -> (r: Option<R>)
        requires
            old(self).lock_free(),
        ensures
            !final(self).present(),
            final(self).lock_free(),
            r == old(self).value_opt(),
    {
        self.slot.take()
    }

    /// How many read guards are currently held.
    pub fn reader_count(&self) -> (r: usize)
        ensures
            r == self.readers_spec(),
    {
        self.readers
    }

    /// Whether the write guard is currently held.
    pub fn has_writer(&self) -> (r: bool)
        ensures
            r == self.writer_spec(),
    {
        self.writer
    }

    /// Acquires a read guard without blocking: `Occupied` while a write
    /// guard is held, `DoesNotExist` on an empty slot.
    pub fn acquire_read(&mut self) -> (r: ResourceFetchResult)
        requires
            old(self).readers_spec() < usize::MAX,
        ensures
            r == old(self).acquire_read_result(),
            final(self).value_opt() == old(self).value_opt(),
            final(self).writer_spec() == old(self).writer_spec(),
            r == ResourceFetchResult::Success ==> final(self).readers_spec() == old(
                self,
            ).readers_spec() + 1,
            r != ResourceFetchResult::Success ==> final(self).readers_spec() == old(
                self,
            ).readers_spec(),
    {
        if self.slot.is_none() {
            return ResourceFetchResult::DoesNotExist;
        }
        if self.writer {
            return ResourceFetchResult::Occupied;
        }
        self.readers = self.readers + 1;
        ResourceFetchResult::Success
    }

    /// Acquires the write guard without blocking: `Occupied` while any guard
    /// is held, `DoesNotExist` on an empty slot.
    pub fn acquire_write(&mut self) -> (r: ResourceFetchResult)
        ensures
            r == old(self).acquire_write_result(),
            final(self).value_opt() == old(self).value_opt(),
            final(self).readers_spec() == old(self).readers_spec(),
            r == ResourceFetchResult::Success ==> final(self).writer_spec(),
            r != ResourceFetchResult::Success ==> final(self).writer_spec() == old(
                self,
            ).writer_spec(),
    {
        if self.slot.is_none() {
            return ResourceFetchResult::DoesNotExist;
        }
        if self.writer || self.readers > 0 {
            return ResourceFetchResult::Occupied;
        }
        self.writer = true;
        ResourceFetchResult::Success
    }

    /// Returns one read guard.
    pub fn release_read(&mut self)
        requires
            old(self).readers_spec() > 0,
        ensures
            final(self).value_opt() == old(self).value_opt(),
            final(self).writer_spec() == old(self).writer_spec(),
            final(self).readers_spec() == old(self).readers_spec() - 1,
    {
        self.readers = self.readers - 1;
    }

    /// Returns the write guard.
    pub fn release_write(&mut self)
        requires
            old(self).writer_spec(),
        ensures
            final(self).value_opt() == old(self).value_opt(),
            final(self).readers_spec() == old(self).readers_spec(),
            !final(self).writer_spec(),
    {
        self.writer = false;
    }

    /// Read access while a guard of either kind is held.
    pub fn borrow_value(&self) -> (r: &R)
        requires
            self.present(),
            self.readers_spec() > 0 || self.writer_spec(),
        ensures
            *r == self.value(),
    {
        self.slot.as_ref().unwrap()
    }

    /// Replaces the instance while the write guard is held.
    pub fn replace_value(&mut self, value: R)
        requires
            old(self).present(),
            old(self).writer_spec(),
        ensures
            final(self).value_opt() == Some(value),
            final(self).readers_spec() == old(self).readers_spec(),
            final(self).writer_spec() == old(self).writer_spec(),
    {
        self.slot = Some(value);
    }
}

} // verus!
