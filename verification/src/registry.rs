//! The shared resource store and its borrow discipline.
//!
//! A [`Registry`] maps a resource type identifier to one resource instance,
//! stored in a [`Slot`] together with the slot's outstanding borrow counters.
//! Acquisition and release are explicit operations whose meaning is given by
//! the spec functions [`step_acquire`], [`acquire_outcome`] and
//! [`step_release`]; every successful acquisition hands out an
//! [`AcquiredHandle`] that must be passed back to [`Registry::release`].

use vstd::prelude::*;
use std::collections::HashMap;

verus! {

broadcast use vstd::std_specs::hash::group_hash_axioms;

/// One declared access need: shared (`Read`) or exclusive (`Write`) use of
/// the resource with the given type identifier.
#[derive(Clone, Copy, PartialEq, Eq, Structural, Debug)]
pub enum Access {
    Read(u64),
    Write(u64),
}

impl Access {
    /// The resource type identifier this access names.
    pub open spec fn id(self) -> u64 {
        match self {
            Access::Read(id) => id,
            Access::Write(id) => id,
        }
    }

    /// Whether this access demands exclusive use.
    pub open spec fn is_write(self) -> bool {
        self is Write
    }

    /// The resource type identifier this access names.
    pub fn get_id(&self) -> (r: u64)
        ensures
            r == self.id(),
    {
        match self {
            Access::Read(id) => *id,
            Access::Write(id) => *id,
        }
    }

    /// Whether this access demands exclusive use.
    pub fn is_write_access(&self) -> (r: bool)
        ensures
            r == self.is_write(),
    {
        match self {
            Access::Read(_) => false,
            Access::Write(_) => true,
        }
    }
}

/// Why an acquisition request failed.
#[derive(Clone, Copy, PartialEq, Eq, Structural, Debug)]
pub enum AccessError {
    /// The resource type was never initialized in the registry.
    NotInitialized(u64),
    /// The requested access is incompatible with an outstanding borrow.
    Conflict(u64),
}

/// One resource slot: the stored value and its outstanding borrows.
///
/// `exclusive` and a non-zero `shared` count never hold at once for a slot
/// that the registry's own operations produced.
#[derive(Clone, Copy, PartialEq, Eq, Structural, Debug)]
pub struct Slot {
    pub value: u64,
    pub shared: usize,
    pub exclusive: bool,
}

/// The slot `Registry::ensure_default` creates for an absent resource.
pub open spec fn default_slot() -> Slot {
    Slot { value: 0, shared: 0, exclusive: false }
}

/// Whether one access can be granted against the slots `m`.
pub open spec fn can_acquire(m: Map<u64, Slot>, a: Access) -> bool {
    &&& m.contains_key(a.id())
    &&& !m[a.id()].exclusive
    &&& if a.is_write() {
        m[a.id()].shared == 0
    } else {
        m[a.id()].shared < usize::MAX
    }
}

/// The error a failing acquisition of `a` against `m` reports.
pub open spec fn acquire_error(m: Map<u64, Slot>, a: Access) -> AccessError {
    if !m.contains_key(a.id()) {
        AccessError::NotInitialized(a.id())
    } else {
        AccessError::Conflict(a.id())
    }
}

/// The slots after one access `a` is granted against `m`.
pub open spec fn granted(m: Map<u64, Slot>, a: Access) -> Map<u64, Slot> {
    let s = m[a.id()];
    if a.is_write() {
        m.insert(a.id(), Slot { value: s.value, shared: s.shared, exclusive: true })
    } else {
        m.insert(a.id(), Slot { value: s.value, shared: (s.shared + 1) as usize, exclusive: s.exclusive })
    }
}

/// The outcome of one acquisition request against the slots `m`.
pub open spec fn step_acquire(m: Map<u64, Slot>, a: Access) -> Result<Map<u64, Slot>, AccessError> {
    if can_acquire(m, a) {
        Ok(granted(m, a))
    } else {
        Err(acquire_error(m, a))
    }
}

/// The outcome of acquiring a whole declaration in order against `m`:
/// the slots with every borrow granted, or the error of the first request
/// that cannot be satisfied.
pub open spec fn acquire_outcome(m: Map<u64, Slot>, s: Seq<Access>) -> Result<Map<u64, Slot>, AccessError>
    decreases s.len(),
{
    if s.len() == 0 {
        Ok(m)
    } else {
        match step_acquire(m, s[0]) {
            Ok(m2) => acquire_outcome(m2, s.skip(1)),
            Err(e) => Err(e),
        }
    }
}

/// Whether a handle for `id` (exclusive or shared) can be given back
/// against the slots `m`.
pub open spec fn can_release(m: Map<u64, Slot>, id: u64, exclusive: bool) -> bool {
    &&& m.contains_key(id)
    &&& if exclusive {
        m[id].exclusive
    } else {
        m[id].shared >= 1
    }
}

/// The slots after a handle for `id` is given back against `m`.
pub open spec fn step_release(m: Map<u64, Slot>, id: u64, exclusive: bool) -> Map<u64, Slot> {
    let s = m[id];
    if exclusive {
        m.insert(id, Slot { value: s.value, shared: s.shared, exclusive: false })
    } else {
        m.insert(id, Slot { value: s.value, shared: (s.shared - 1) as usize, exclusive: s.exclusive })
    }
}

/// A capability witnessing one successfully acquired borrow of one resource
/// slot. Holding it keeps the slot's borrow counter raised; passing it to
/// [`Registry::release`] gives the borrow back.
#[derive(Debug)]
pub struct AcquiredHandle {
    id: u64,
    exclusive: bool,
}

impl AcquiredHandle {
    /// The resource type identifier this handle grants access to.
    pub closed spec fn id(&self) -> u64 {
        self.id
    }

    /// Whether this handle grants exclusive access.
    pub closed spec fn is_exclusive(&self) -> bool {
        self.exclusive
    }

    /// Whether this handle is the one that granting `a` hands out.
    pub open spec fn grants(&self, a: Access) -> bool {
        self.id() == a.id() && self.is_exclusive() == a.is_write()
    }

    /// The resource type identifier, for conflict probing by a scheduler.
    pub fn resource_id(&self) -> (r: u64)
        ensures
            r == self.id(),
    {
        self.id
    }

    /// Whether the handle is exclusive, for conflict probing by a scheduler.
    pub fn exclusive(&self) -> (r: bool)
        ensures
            r == self.is_exclusive(),
    {
        self.exclusive
    }
}

/// Shared store mapping a resource type identifier to one resource instance
/// and the borrow counters guarding it.
pub struct Registry {
    slots: HashMap<u64, Slot>,
}

impl View for Registry {
    type V = Map<u64, Slot>;

    closed spec fn view(&self) -> Map<u64, Slot> {
        self.slots@
    }
}

impl Registry {
    /// An empty registry: no resource type is initialized.
    pub fn new() -> (r: Registry)
        ensures
            r@ == Map::<u64, Slot>::empty(),
    {
        Registry { slots: HashMap::new() }
    }

    /// Whether the resource type `id` is initialized.
    pub fn contains(&self, id: u64) -> (r: bool)
        ensures
            r == self@.contains_key(id),
    {
        self.slots.contains_key(&id)
    }

    /// Insert a default instance of resource type `id` if absent; never
    /// overwrites an existing instance or its borrow counters.
    pub fn ensure_default(&mut self, id: u64)
        ensures
            final(self)@ == if old(self)@.contains_key(id) {
                old(self)@
            } else {
                old(self)@.insert(id, default_slot())
            },
    {
        if !self.slots.contains_key(&id) {
            self.slots.insert(id, Slot { value: 0, shared: 0, exclusive: false });
        }
    }

    /// Request shared access to resource type `id`. Succeeds exactly when the
    /// slot exists, is not exclusively borrowed, and its shared counter can
    /// still grow; fails with `NotInitialized` or `Conflict` otherwise,
    /// leaving the registry unchanged.
    pub fn try_acquire_shared(&mut self, id: u64) -> (r: Result<AcquiredHandle, AccessError>)
        ensures
            match r {
                Ok(h) => h.grants(Access::Read(id))
                    && step_acquire(old(self)@, Access::Read(id)) == Ok::<Map<u64, Slot>, AccessError>(final(self)@),
                Err(e) => step_acquire(old(self)@, Access::Read(id)) == Err::<Map<u64, Slot>, AccessError>(e)
                    && final(self)@ == old(self)@,
            },
    {
        let s = match self.slots.get(&id) {
            Some(slot) => *slot,
            None => {
                return Err(AccessError::NotInitialized(id));
            },
        };
        if s.exclusive || s.shared == usize::MAX {
            Err(AccessError::Conflict(id))
        } else {
            self.slots.insert(id, Slot { value: s.value, shared: s.shared + 1, exclusive: s.exclusive });
            Ok(AcquiredHandle { id, exclusive: false })
        }
    }

    /// Request exclusive access to resource type `id`. Succeeds exactly when
    /// the slot exists and carries no outstanding borrow at all; fails with
    /// `NotInitialized` or `Conflict` otherwise, leaving the registry
    /// unchanged.
    pub fn try_acquire_exclusive(&mut self, id: u64) -> (r: Result<AcquiredHandle, AccessError>)
        ensures
            match r {
                Ok(h) => h.grants(Access::Write(id))
                    && step_acquire(old(self)@, Access::Write(id)) == Ok::<Map<u64, Slot>, AccessError>(final(self)@),
                Err(e) => step_acquire(old(self)@, Access::Write(id)) == Err::<Map<u64, Slot>, AccessError>(e)
                    && final(self)@ == old(self)@,
            },
    {
        let s = match self.slots.get(&id) {
            Some(slot) => *slot,
            None => {
                return Err(AccessError::NotInitialized(id));
            },
        };
        if s.exclusive || s.shared > 0 {
            Err(AccessError::Conflict(id))
        } else {
            self.slots.insert(id, Slot { value: s.value, shared: s.shared, exclusive: true });
            Ok(AcquiredHandle { id, exclusive: true })
        }
    }

    /// Request the access `a`: a shared borrow for a `Read`, an exclusive
    /// borrow for a `Write`. The outcome is exactly [`step_acquire`] of the
    /// current slots; on failure the registry is unchanged.
    pub fn try_acquire(&mut self, a: Access) -> (r: Result<AcquiredHandle, AccessError>)
        ensures
            match r {
                Ok(h) => h.grants(a) && step_acquire(old(self)@, a) == Ok::<
                    Map<u64, Slot>,
                    AccessError,
                >(final(self)@),
                Err(e) => step_acquire(old(self)@, a) == Err::<Map<u64, Slot>, AccessError>(e)
                    && final(self)@ == old(self)@,
            },
    {
        match a {
            Access::Read(id) => self.try_acquire_shared(id),
            Access::Write(id) => self.try_acquire_exclusive(id),
        }
    }

    /// Give an acquired borrow back, lowering the slot's borrow counter.
    /// Consumes the handle, so a released borrow cannot be given back twice.
    pub fn release(&mut self, handle: AcquiredHandle)
        requires
            can_release(old(self)@, handle.id(), handle.is_exclusive()),
        ensures
            final(self)@ == step_release(old(self)@, handle.id(), handle.is_exclusive()),
    {
        let s = match self.slots.get(&handle.id) {
            Some(slot) => *slot,
            None => {
                proof {
                    assert(false);
                }
                return;
            },
        };
        if handle.exclusive {
            self.slots.insert(handle.id, Slot { value: s.value, shared: s.shared, exclusive: false });
        } else {
            self.slots.insert(handle.id, Slot { value: s.value, shared: s.shared - 1, exclusive: s.exclusive });
        }
    }

    /// The current value of resource type `id`, if initialized.
    pub fn get_value(&self, id: u64) -> (r: Option<u64>)
        ensures
            r == if self@.contains_key(id) {
                Some(self@[id].value)
            } else {
                None::<u64>
            },
    {
        match self.slots.get(&id) {
            Some(slot) => Some(slot.value),
            None => None,
        }
    }

    /// Replace the value of the initialized resource type `id`, leaving its
    /// borrow counters and every other slot unchanged.
    pub fn set_value(&mut self, id: u64, value: u64)
        requires
            old(self)@.contains_key(id),
        ensures
            final(self)@ == old(self)@.insert(id, (Slot {
                value,
                shared: old(self)@[id].shared,
                exclusive: old(self)@[id].exclusive,
            })),
    {
        let s = match self.slots.get(&id) {
            Some(slot) => *slot,
            None => {
                proof {
                    assert(false);
                }
                return;
            },
        };
        self.slots.insert(id, Slot { value, shared: s.shared, exclusive: s.exclusive });
    }
}

impl Default for Registry {
    /// An empty registry, as [`Registry::new`] builds it.
    fn default() -> (r: Registry)
        ensures
            r@ == Map::<u64, Slot>::empty(),
    {
        Registry::new()
    }
}

} // verus!
