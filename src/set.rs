//! The component set: one lock-guarded storage per component type, kept in a
//! chain whose types select each storage at compile time.
use std::marker::PhantomData;
use vstd::prelude::*;
use vstd::rwlock::{RwLock, RwLockPredicate, WriteHandle};

use crate::storage::{Component, DefaultStorage, Storage};

verus! {

/// What every storage lock holds: a well-formed storage.
pub struct StorageWf;

impl<T: Component> RwLockPredicate<DefaultStorage<T>> for StorageWf {
    open spec fn inv(self, v: DefaultStorage<T>) -> bool {
        v.wf()
    }
}

/// Position of a component type in a set, counted from the last one pushed:
/// `Here` is the outermost entry, `There<I>` the entry below position `I`.
pub trait Slot {
    /// The position, saturated at `usize::MAX`.
    spec fn position() -> usize;

    /// The position, at run time.
    fn offset() -> (r: usize)
        ensures
            r == Self::position(),
    ;
}

/// The outermost entry of a set.
pub struct Here;

/// The entry below the one at `I`.
pub struct There<I> {
    _marker: PhantomData<I>,
}

impl Slot for Here {
    open spec fn position() -> usize {
        0
    }

    fn offset() -> (r: usize) {
        0
    }
}

impl<I: Slot> Slot for There<I> {
    open spec fn position() -> usize {
        if I::position() < usize::MAX {
            (I::position() + 1) as usize
        } else {
            usize::MAX
        }
    }

    fn offset() -> (r: usize) {
        let p = I::offset();
        if p < usize::MAX {
            p + 1
        } else {
            p
        }
    }
}

/// The bottom of every set: it holds no storage.
pub struct Empty;

/// A set entry: the lock-guarded storage of component `T` on top of the set `P`.
pub struct SetEntry<T: Component, P: ComponentSet> {
    data: RwLock<DefaultStorage<T>, StorageWf>,
    parent: P,
}

/// A chain of lock-guarded storages, one per component type, built from
/// `Empty` by `push` and `push_custom`.
///
/// Pushing the same component type twice is a caller error: the type then
/// names two entries, and a lookup that leaves the index to inference is
/// ambiguous.
pub trait ComponentSet: Sized {}

impl ComponentSet for Empty {}

impl<T: Component, P: ComponentSet> ComponentSet for SetEntry<T, P> {}

impl Empty {
    /// Adds an empty storage for component `T`.
    pub fn push<T: Component>(self) -> (r: SetEntry<T, Empty>)
        ensures
            r.parent() == self,
    {
        self.push_custom(DefaultStorage::new())
    }

    /// Adds `storage` as the storage for component `T`.
    pub fn push_custom<T: Component>(self, storage: DefaultStorage<T>) -> (r: SetEntry<T, Empty>)
        requires
            storage.wf(),
        ensures
            r.parent() == self,
    {
        SetEntry::new(self, storage)
    }
}

impl<U: Component, P: ComponentSet> SetEntry<U, P> {
    /// Adds an empty storage for component `T` on top of this set.
    pub fn push<T: Component>(self) -> (r: SetEntry<T, SetEntry<U, P>>)
        ensures
            r.parent() == self,
    {
        self.push_custom(DefaultStorage::new())
    }

    /// Adds `storage` as the storage for component `T` on top of this set.
    pub fn push_custom<T: Component>(self, storage: DefaultStorage<T>) -> (r: SetEntry<
        T,
        SetEntry<U, P>,
    >)
        requires
            storage.wf(),
        ensures
            r.parent() == self,
    {
        SetEntry::new(self, storage)
    }

    /// The lock guarding this entry's own storage.
    pub closed spec fn storage_lock(&self) -> RwLock<DefaultStorage<U>, StorageWf> {
        self.data
    }

    /// The set below this entry.
    pub closed spec fn parent(&self) -> P {
        self.parent
    }

    /// An entry guarding `storage`, on top of `parent`.
    pub fn new(parent: P, storage: DefaultStorage<U>) -> (r: SetEntry<U, P>)
        requires
            storage.wf(),
        ensures
            r.parent() == parent,
            r.storage_lock().pred() == StorageWf,
    {
        SetEntry { data: RwLock::new(storage, Ghost(StorageWf)), parent }
    }

    /// Locks the storage of component `T`, found at position `I`; blocks
    /// until the lock is free.
    pub fn lock<T: Component, I: Slot>(&self) -> (r: Locked<'_, T>)
        where
            Self: Contains<T, I>,
        ensures
            r@.wf(),
            r.lock() == <Self as Contains<T, I>>::slot_spec(self),
    {
        Locked::acquire(self.slot())
    }
}

/// A set that holds a storage for component `T` at position `I`.
pub trait Contains<T: Component, I: Slot>: ComponentSet {
    /// The lock guarding the storage of `T`: that of the outermost entry
    /// whose type is `T`.
    spec fn slot_spec(&self) -> RwLock<DefaultStorage<T>, StorageWf>;

    /// The lock guarding the storage of `T`.
    fn slot(&self) -> (r: &RwLock<DefaultStorage<T>, StorageWf>)
        ensures
            *r == self.slot_spec(),
    ;
}

impl<T: Component, P: ComponentSet> Contains<T, Here> for SetEntry<T, P> {
    open spec fn slot_spec(&self) -> RwLock<DefaultStorage<T>, StorageWf> {
        self.storage_lock()
    }

    fn slot(&self) -> (r: &RwLock<DefaultStorage<T>, StorageWf>) {
        &self.data
    }
}

impl<T: Component, U: Component, I: Slot, P: Contains<T, I>> Contains<T, There<I>> for SetEntry<
    U,
    P,
> {
    open spec fn slot_spec(&self) -> RwLock<DefaultStorage<T>, StorageWf> {
        self.parent().slot_spec()
    }

    fn slot(&self) -> (r: &RwLock<DefaultStorage<T>, StorageWf>) {
        self.parent.slot()
    }
}

/// A storage taken out of its lock; the lock stays held until `release`.
pub struct Locked<'a, T: Component> {
    storage: DefaultStorage<T>,
    handle: WriteHandle<'a, DefaultStorage<T>, StorageWf>,
}

impl<'a, T: Component> View for Locked<'a, T> {
    type V = DefaultStorage<T>;

    closed spec fn view(&self) -> DefaultStorage<T> {
        self.storage
    }
}

impl<'a, T: Component> Locked<'a, T> {
    /// The lock this storage was taken from.
    pub closed spec fn lock(&self) -> RwLock<DefaultStorage<T>, StorageWf> {
        self.handle.rwlock()
    }

    /// Takes the lock, blocking until it is free. Nothing frees it on drop:
    /// a `Locked` dropped without `release` leaves the lock held for good.
    pub fn acquire(lock: &'a RwLock<DefaultStorage<T>, StorageWf>) -> (r: Locked<'a, T>)
        ensures
            r@.wf(),
            r.lock() == *lock,
    {
        let (storage, handle) = lock.acquire_write();
        Locked { storage, handle }
    }

    /// The locked storage.
    pub fn storage(&self) -> (r: &DefaultStorage<T>)
        ensures
            *r == self@,
    {
        &self.storage
    }

    /// The locked storage, for writing.
    pub fn storage_mut(&mut self) -> (r: &mut DefaultStorage<T>)
        ensures
            *r == old(self)@,
            final(self)@ == *final(r),
            final(self).lock() == old(self).lock(),
    {
        &mut self.storage
    }

    /// Puts the storage back and frees the lock.
    pub fn release(self)
        requires
            self@.wf(),
    {
        let Locked { storage, handle } = self;
        handle.release_write(storage);
    }
}

/// A bundle of held storage locks, released together.
pub trait LockGroup: Sized {
    /// Every storage in the bundle is well formed.
    spec fn wf(&self) -> bool;

    /// Releases every lock in the bundle.
    fn release(self)
        requires
            self.wf(),
    ;
}

impl LockGroup for () {
    open spec fn wf(&self) -> bool {
        true
    }

    fn release(self) {
    }
}

impl<'a, R: LockGroup, T: Component> LockGroup for (R, Locked<'a, T>) {
    open spec fn wf(&self) -> bool {
        self.0.wf() && self.1@.wf()
    }

    fn release(self) {
        let (rest, last) = self;
        last.release();
        rest.release();
    }
}

} // verus!
