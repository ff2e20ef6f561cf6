use vstd::prelude::*;
use vstd::rwlock::RwLock;
use std::sync::Arc;

verus! {

/// The shared slot of the snapshot channel: either nothing has been
/// published yet, or a handle to the latest immutable snapshot.
pub type Slot<T> = Option<Arc<T>>;

/// Accepts any snapshot value in the slot.
pub open spec fn any_slot<T>(v: Slot<T>) -> bool {
    true
}

/// The writer's side of the single-writer, multi-reader snapshot channel:
/// it owns a working value and publishes immutable copies of it.
#[verifier::reject_recursive_types(T)]
pub struct Master<T: Clone> {
    pub master: T,
    pub published: Arc<RwLock<Slot<T>, spec_fn(Slot<T>) -> bool>>,
}

impl<T: Clone> Master<T> {
    /// The shared lock admits every snapshot value.
    pub open spec fn wf(self) -> bool {
        forall|v: Slot<T>| #[trigger] self.published.inv(v)
    }

    pub fn new(t: T) -> (r: Master<T>)
        ensures
            r.master == t,
            r.wf(),
    {
        let lock = RwLock::<Slot<T>, spec_fn(Slot<T>) -> bool>::new(
            None,
            Ghost(|v: Slot<T>| any_slot(v)),
        );
        Master { master: t, published: Arc::new(lock) }
    }

    /// Replaces the shared slot with a clone of the working value.  Readers
    /// never see a partial write: the slot swap happens under the lock.
    pub fn publish(&mut self)
        requires
            old(self).wf(),
        ensures
            final (self).master == old(self).master,
            final (self).published == old(self).published,
            final (self).wf(),
    {
        let snapshot = Arc::new(self.master.clone());
        let (_, handle) = self.published.acquire_write();
        handle.release_write(Some(snapshot));
    }
}

/// A reader's side of the channel: rebinds its local handle to the latest
/// published snapshot on demand, without ever blocking the writer for more
/// than the slot swap.
#[verifier::reject_recursive_types(T)]
pub struct Local<T: Clone> {
    pub local: Option<Arc<T>>,
    pub published: Arc<RwLock<Slot<T>, spec_fn(Slot<T>) -> bool>>,
}

impl<T: Clone> Local<T> {
    pub fn new(master: &Master<T>) -> (r: Local<T>)
        ensures
            r.local is None,
            r.published == master.published,
    {
        Local { local: None, published: Arc::clone(&master.published) }
    }

    /// Rebinds the local handle to whatever the slot holds right now.
    pub fn update(&mut self)
        ensures
            final (self).published == old(self).published,
    {
        let read_handle = self.published.acquire_read();
        let slot = read_handle.borrow();
        match slot {
            Some(t) => {
                self.local = Some(Arc::clone(t));
            },
            None => {
                self.local = None;
            },
        }
        read_handle.release_read();
    }
}

} // verus!
