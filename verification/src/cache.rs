//! The handle-based asset cache: inserting a value allocates a fresh
//! slot and returns a stable, copyable handle; slots are never reused,
//! so a handle whose backing value was removed simply reads back as
//! absent, never as another value. A secondary `HandleMap` associates a
//! derived value with any handle without storing it inside the cache
//! entry; its get-or-insert operation runs the derivation at most once
//! per handle.

use vstd::prelude::*;

verus! {

/// A typed, copyable reference to a cache slot. The slot id is the
/// identity: two handles to one slot compare equal, and the type tag
/// keeps a handle from being used with a cache of another type.
#[derive(Debug)]
pub struct Handle<K> {
    id: usize,
    marker: core::marker::PhantomData<K>,
}

impl<K> Clone for Handle<K> {
    fn clone(&self) -> (r: Self)
        ensures
            r == *self,
    {
        Handle { id: self.id, marker: core::marker::PhantomData }
    }
}

impl<K> Copy for Handle<K> {

}

impl<K> Handle<K> {
    /// The slot id this handle names.
    pub fn id(&self) -> (r: usize)
        ensures
            r as int == self@,
    {
        self.id
    }

    /// The slot id, for specifications.
    pub closed spec fn view(&self) -> int {
        self.id as int
    }
}

/// The primary store: a slot per inserted value, addressed by handle.
pub struct AssetCache<V> {
    slots: Vec<Option<V>>,
}

impl<V> View for AssetCache<V> {
    type V = Seq<Option<V>>;

    closed spec fn view(&self) -> Seq<Option<V>> {
        self.slots@
    }
}

impl<V> AssetCache<V> {
    /// An empty cache.
    pub fn new() -> (c: AssetCache<V>)
        ensures
            c@ == Seq::<Option<V>>::empty(),
    {
        AssetCache { slots: Vec::new() }
    }

    /// Stores `value` in a fresh slot and returns its handle. No
    /// existing slot moves, so every earlier handle keeps its meaning.
    pub fn insert(&mut self, value: V) -> (h: Handle<V>)
        ensures
            h@ == old(self)@.len(),
            final(self)@ == old(self)@.push(Some(value)),
            final(self)@[h@] == Some(value),
    {
        let id = self.slots.len();
        self.slots.push(Some(value));
        Handle { id, marker: core::marker::PhantomData }
    }

    /// The value behind `handle`: `None` exactly when the slot was
    /// removed (a stale handle is answered, never misread).
    pub fn get(&self, handle: &Handle<V>) -> (r: Option<&V>)
        ensures
            match r {
                Some(v) => 0 <= handle@ < self@.len() && self@[handle@] == Some(*v),
                None => !(0 <= handle@ < self@.len()) || self@[handle@] is None,
            },
    {
        if handle.id() < self.slots.len() {
            match &self.slots[handle.id()] {
                Some(v) => Some(v),
                None => None,
            }
        } else {
            None
        }
    }

    /// Removes the value behind `handle` and returns it; the slot stays
    /// allocated so the id is never reissued.
    pub fn remove(&mut self, handle: &Handle<V>) -> (r: Option<V>)
        ensures
            r == (if 0 <= handle@ < old(self)@.len() {
                old(self)@[handle@]
            } else {
                None::<V>
            }),
            0 <= handle@ < old(self)@.len() ==> final(self)@ == old(self)@.update(handle@, None),
            !(0 <= handle@ < old(self)@.len()) ==> final(self)@ == old(self)@,
    {
        if handle.id() < self.slots.len() {
            let slot = &mut self.slots[handle.id()];
            let mut out: Option<V> = None;
            std::mem::swap(slot, &mut out);
            out
        } else {
            None
        }
    }
}

/// The slots of a secondary map after writing `v` under `id`, growing
/// the table as needed.
pub open spec fn padded_set<V>(s: Seq<Option<V>>, id: int, v: V) -> Seq<Option<V>> {
    let len = if id + 1 > s.len() {
        id + 1
    } else {
        s.len() as int
    };
    Seq::new(
        len as nat,
        |i: int|
            if i == id {
                Some(v)
            } else if i < s.len() {
                s[i]
            } else {
                None
            },
    )
}

/// A side table associating a derived value with any handle, keyed by
/// the handle's identity (not the asset's content) and owned
/// independently of the primary cache entry: removing the primary value
/// does not remove the derived one.
pub struct HandleMap<K, V> {
    inner: Vec<Option<V>>,
    marker: core::marker::PhantomData<K>,
}

impl<K, V> View for HandleMap<K, V> {
    type V = Seq<Option<V>>;

    closed spec fn view(&self) -> Seq<Option<V>> {
        self.inner@
    }
}

impl<K, V> HandleMap<K, V> {
    /// The association of slot `id`, if any.
    pub open spec fn lookup(&self, id: int) -> Option<V> {
        if 0 <= id < self@.len() {
            self@[id]
        } else {
            None
        }
    }

    /// An empty map.
    pub fn new() -> (m: HandleMap<K, V>)
        ensures
            m@ == Seq::<Option<V>>::empty(),
    {
        HandleMap { inner: Vec::new(), marker: core::marker::PhantomData }
    }

    /// Associates `value` with `handle`, replacing any earlier
    /// association; no other handle's association moves.
    #[verifier::loop_isolation(false)]
    pub fn insert(&mut self, handle: &Handle<K>, value: V)
        ensures
            final(self)@ == padded_set(old(self)@, handle@, value),
            final(self).lookup(handle@) == Some(value),
            forall|i: int| 0 <= i && i != handle@ ==> final(self).lookup(i) == old(self).lookup(i),
    {
        let id = handle.id();
        while self.inner.len() <= id
            invariant
                self@.len() >= old(self)@.len(),
                self@.len() <= (if id + 1 > old(self)@.len() {
                    id + 1
                } else {
                    old(self)@.len() as int
                }),
                forall|i: int| 0 <= i < old(self)@.len() ==> self@[i] == old(self)@[i],
                forall|i: int| old(self)@.len() <= i < self@.len() ==> self@[i] is None,
            decreases id + 1 - self@.len(),
        {
            self.inner.push(None);
        }
        let slot = &mut self.inner[id];
        *slot = Some(value);
        proof {
            assert(self@ =~= padded_set(old(self)@, handle@, value));
        }
    }

    /// The association of `handle`, if one was made.
    pub fn get(&self, handle: &Handle<K>) -> (r: Option<&V>)
        ensures
            match r {
                Some(v) => self.lookup(handle@) == Some(*v),
                None => self.lookup(handle@) is None,
            },
    {
        if handle.id() < self.inner.len() {
            match &self.inner[handle.id()] {
                Some(v) => Some(v),
                None => None,
            }
        } else {
            None
        }
    }

    /// A mutable borrow of the association of `handle`: the map
    /// afterwards holds whatever the caller leaves in the borrow, and no
    /// other association moves.
    pub fn get_mut(&mut self, handle: &Handle<K>) -> (r: &mut V)
        requires
            old(self).lookup(handle@) is Some,
        ensures
            Some(*r) == old(self).lookup(handle@),
            final(self)@ == old(self)@.update(handle@, Some(*final(r))),
    {
        let slot = &mut self.inner[handle.id()];
        match slot {
            Some(v) => v,
            None => {
                proof {
                    assert(false);
                }
                unreached()
            },
        }
    }

    /// Conditional modify: when `handle` has an association, replaces it
    /// with `f` of it; otherwise the map is untouched and `f` never
    /// runs. (The borrowing entry builder of a conventional map API
    /// cannot exist here, so the transform is by value.)
    pub fn modify_if_present<F: FnOnce(V) -> V>(&mut self, handle: &Handle<K>, f: F)
        requires
            forall|v: V| #[trigger] call_requires(f, (v,)),
        ensures
            old(self).lookup(handle@) is None ==> final(self)@ == old(self)@,
            old(self).lookup(handle@) is Some ==> exists|nv: V|
                #[trigger] call_ensures(f, (old(self).lookup(handle@)->Some_0,), nv)
                    && final(self)@ == old(self)@.update(handle@, Some(nv)),
    {
        let id = handle.id();
        if id < self.inner.len() {
            let slot = &mut self.inner[id];
            let mut taken: Option<V> = None;
            std::mem::swap(slot, &mut taken);
            match taken {
                Some(v) => {
                    let nv = f(v);
                    let refill = &mut self.inner[id];
                    *refill = Some(nv);
                    proof {
                        assert(self@ =~= old(self)@.update(handle@, Some(nv)));
                    }
                },
                None => {
                    proof {
                        assert(self@ =~= old(self)@);
                    }
                },
            }
        }
    }

    /// Get-or-insert with a ready value: stores `default` under
    /// `handle` only when no association exists yet.
    pub fn or_insert(&mut self, handle: &Handle<K>, default: V)
        ensures
            old(self).lookup(handle@) is Some ==> final(self)@ == old(self)@,
            old(self).lookup(handle@) is None ==> final(self)@ == padded_set(
                old(self)@,
                handle@,
                default,
            ),
            final(self).lookup(handle@) is Some,
    {
        let present = match self.get(handle) {
            Some(_) => true,
            None => false,
        };
        if !present {
            self.insert(handle, default);
        }
    }

    /// Get-or-insert whose derivation receives the handle's slot id;
    /// as with `or_insert_with`, the derivation runs at most once per
    /// handle.
    pub fn or_insert_with_key<F: FnOnce(usize) -> V>(&mut self, handle: &Handle<K>, default: F)
        requires
            call_requires(default, ((handle@) as usize,)),
        ensures
            old(self).lookup(handle@) is Some ==> final(self)@ == old(self)@,
            old(self).lookup(handle@) is None ==> exists|v: V|
                #[trigger] call_ensures(default, ((handle@) as usize,), v) && final(self)@
                    == padded_set(old(self)@, handle@, v),
            final(self).lookup(handle@) is Some,
    {
        let present = match self.get(handle) {
            Some(_) => true,
            None => false,
        };
        if !present {
            let v = default(handle.id());
            self.insert(handle, v);
        }
    }

    /// Get-or-insert: when `handle` has an association, returns without
    /// calling `default` and changes nothing; otherwise runs the
    /// derivation once and stores its result. Two calls with one handle
    /// run the derivation at most once.
    pub fn or_insert_with<F: FnOnce() -> V>(&mut self, handle: &Handle<K>, default: F)
        requires
            call_requires(default, ()),
        ensures
            old(self).lookup(handle@) is Some ==> final(self)@ == old(self)@,
            old(self).lookup(handle@) is None ==> exists|v: V|
                #[trigger] call_ensures(default, (), v) && final(self)@ == padded_set(
                    old(self)@,
                    handle@,
                    v,
                ),
            final(self).lookup(handle@) is Some,
    {
        let present = match self.get(handle) {
            Some(_) => true,
            None => false,
        };
        if !present {
            let v = default();
            self.insert(handle, v);
        }
    }
}

impl<K, V> Default for HandleMap<K, V> {
    /// An empty map.
    fn default() -> (m: Self)
        ensures
            m@ == Seq::<Option<V>>::empty(),
    {
        HandleMap::new()
    }
}

/// Law: a lookup right after an insert returns a value equal to the
/// one inserted, and the derivation of a get-or-insert never replaces
/// an existing association.
pub proof fn lemma_cache_round_trip<V>(pre: Seq<Option<V>>, post: Seq<Option<V>>, id: int, v: V)
    requires
        post == pre.push(Some(v)),
        id == pre.len(),
    ensures
        post[id] == Some(v),
{
}

} // verus!
