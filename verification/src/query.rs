//! The declarative query layer: a query names the components it reads
//! and the components it writes, carries presence / absence / changed
//! filters, and must be borrowed from the store before iteration. Two
//! live borrows may never alias a component for writing; the store
//! checks that at borrow time and fails fast with a conflict.

use vstd::prelude::*;

use crate::store::BorrowV;
use crate::store::ComponentKey;
use crate::store::Entity;
use crate::store::World;
use crate::store::WorldV;

verus! {

/// An entity filter of a query.
#[derive(Clone, Copy, PartialEq, Eq, Structural, Debug)]
pub enum Filter {
    /// The entity holds the component.
    With(ComponentKey),
    /// The entity does not hold the component.
    Without(ComponentKey),
    /// The component was written after the query last observed the
    /// store.
    Changed(ComponentKey),
}

/// Whether entity `e` of store `w` passes one filter, for a query that
/// last observed tick `last_seen`.
pub open spec fn passes_filter(w: WorldV, e: int, f: Filter, last_seen: u64) -> bool {
    match f {
        Filter::With(k) => w.comp(e, k) is Some,
        Filter::Without(k) => w.comp(e, k) is None,
        Filter::Changed(k) => match w.comp(e, k) {
            Some(c) => c.tick > last_seen,
            None => false,
        },
    }
}

/// Whether entity `e` matches a query: it is live and passes every
/// filter. A despawned identity never matches any query.
pub open spec fn q_matches(w: WorldV, e: int, filters: Seq<Filter>, last_seen: u64) -> bool {
    &&& w.alive(e)
    &&& forall|i: int| 0 <= i < filters.len() ==> passes_filter(w, e, #[trigger] filters[i], last_seen)
}

/// Two key sets overlap when they share a key.
pub open spec fn overlaps(a: Seq<ComponentKey>, b: Seq<ComponentKey>) -> bool {
    exists|i: int, j: int| 0 <= i < a.len() && 0 <= j < b.len() && #[trigger] a[i] == #[trigger] b[j]
}

/// A new borrow with read set `reads` and write set `writes` conflicts
/// with the live borrow `b` when either writes into the other's
/// footprint.
pub open spec fn conflicts_with(b: BorrowV, reads: Seq<ComponentKey>, writes: Seq<ComponentKey>) -> bool {
    overlaps(writes, b.reads) || overlaps(writes, b.writes) || overlaps(reads, b.writes)
}

/// A declarative borrow over the store: read keys, write keys and
/// filters, plus the store tick at which it last observed the world
/// (the reference point of its `Changed` filters).
pub struct Query {
    pub reads: Vec<ComponentKey>,
    pub writes: Vec<ComponentKey>,
    pub filters: Vec<Filter>,
    pub last_seen: u64,
}

impl Query {
    /// A query reading `reads` and writing `writes`, with no filters,
    /// which has not yet observed any store.
    pub fn new(reads: Vec<ComponentKey>, writes: Vec<ComponentKey>) -> (q: Query)
        ensures
            q.reads@ == reads@,
            q.writes@ == writes@,
            q.filters@ == Seq::<Filter>::empty(),
            q.last_seen == 0,
    {
        Query { reads, writes, filters: Vec::new(), last_seen: 0 }
    }

    /// This query with one more filter.
    pub fn with_filter(self, f: Filter) -> (q: Query)
        ensures
            q.reads@ == self.reads@,
            q.writes@ == self.writes@,
            q.filters@ == self.filters@.push(f),
            q.last_seen == self.last_seen,
    {
        let mut q = self;
        q.filters.push(f);
        q
    }

    /// Marks the current store tick as observed: after this, `Changed`
    /// filters only see writes made from now on.
    pub fn observe(&mut self, w: &World)
        ensures
            final(self).reads@ == old(self).reads@,
            final(self).writes@ == old(self).writes@,
            final(self).filters@ == old(self).filters@,
            final(self).last_seen == w@.tick,
    {
        self.last_seen = w.current_tick();
    }

    /// Whether entity `e` currently matches this query.
    pub fn matches(&self, w: &World, e: Entity) -> (r: bool)
        ensures
            r == q_matches(w@, e.id as int, self.filters@, self.last_seen),
    {
        if !w.is_alive(e) {
            return false;
        }
        let mut i: usize = 0;
        while i < self.filters.len()
            invariant
                i <= self.filters@.len(),
                w@.alive(e.id as int),
                forall|k: int|
                    0 <= k < i ==> passes_filter(
                        w@,
                        e.id as int,
                        #[trigger] self.filters@[k],
                        self.last_seen,
                    ),
            decreases self.filters@.len() - i,
        {
            let ok = match self.filters[i] {
                Filter::With(k) => w.get_cell(e, k).is_some(),
                Filter::Without(k) => w.get_cell(e, k).is_none(),
                Filter::Changed(k) => match w.get_cell(e, k) {
                    Some(c) => c.tick > self.last_seen,
                    None => false,
                },
            };
            if !ok {
                return false;
            }
            i = i + 1;
        }
        true
    }

    /// All entities matching this query, in ascending id order. Every
    /// yielded identity is live: a despawned entity is never yielded.
    pub fn matching(&self, w: &World) -> (r: Vec<Entity>)
        ensures
            r@ == match_ids(w@, self.filters@, self.last_seen, w@.n()),
            forall|i: int|
                0 <= i < r@.len() ==> q_matches(
                    w@,
                    (#[trigger] r@[i]).id as int,
                    self.filters@,
                    self.last_seen,
                ),
            forall|x: int|
                0 <= x < w@.n() && q_matches(w@, x, self.filters@, self.last_seen) ==> exists|i: int|
                    0 <= i < r@.len() && (#[trigger] r@[i]).id == x,
            forall|i: int, j: int|
                0 <= i < j < r@.len() ==> (#[trigger] r@[i]).id < (#[trigger] r@[j]).id,
    {
        let mut out: Vec<Entity> = Vec::new();
        let n = w.entity_count();
        let mut e: usize = 0;
        while e < n
            invariant
                e <= n,
                n == w@.n(),
                out@ == match_ids(w@, self.filters@, self.last_seen, e as int),
                forall|i: int|
                    0 <= i < out@.len() ==> q_matches(
                        w@,
                        (#[trigger] out@[i]).id as int,
                        self.filters@,
                        self.last_seen,
                    ) && out@[i].id < e,
                forall|x: int|
                    0 <= x < e && q_matches(w@, x, self.filters@, self.last_seen) ==> exists|i: int|
                        0 <= i < out@.len() && (#[trigger] out@[i]).id == x,
                forall|i: int, j: int|
                    0 <= i < j < out@.len() ==> (#[trigger] out@[i]).id < (#[trigger] out@[j]).id,
            decreases n - e,
        {
            let ghost prev = out@;
            let ent = Entity { id: e };
            if self.matches(w, ent) {
                out.push(ent);
            }
            proof {
                assert(out@ =~= match_ids(w@, self.filters@, self.last_seen, e + 1));
                assert forall|x: int|
                    0 <= x < e + 1 && q_matches(w@, x, self.filters@, self.last_seen) implies exists|
                    i: int,
                |
                    0 <= i < out@.len() && (#[trigger] out@[i]).id == x by {
                    if x == e as int {
                        assert(out@[out@.len() - 1].id == x);
                    } else {
                        let i = choose|i: int| 0 <= i < prev.len() && (#[trigger] prev[i]).id == x;
                        assert(out@[i].id == x);
                    }
                }
            }
            e = e + 1;
        }
        proof {
            assert(out@ == match_ids(w@, self.filters@, self.last_seen, w@.n()));
        }
        out
    }
}

/// The entities among the first `n` identities that match the filters,
/// in ascending id order.
pub open spec fn match_ids(w: WorldV, filters: Seq<Filter>, last_seen: u64, n: int) -> Seq<Entity>
    decreases n,
{
    if n <= 0 {
        Seq::empty()
    } else {
        match_ids(w, filters, last_seen, n - 1) + (if q_matches(w, n - 1, filters, last_seen) {
            seq![Entity { id: (n - 1) as usize }]
        } else {
            Seq::empty()
        })
    }
}

/// Matching reads only the slots (aliveness, components, their ticks),
/// never the borrow registry: two stores with equal slots match exactly
/// the same entities, in the same order.
pub proof fn lemma_match_agree(a: WorldV, b: WorldV, filters: Seq<Filter>, last_seen: u64, n: int)
    requires
        a.slots == b.slots,
    ensures
        forall|e: int| #[trigger]
            q_matches(a, e, filters, last_seen) == q_matches(b, e, filters, last_seen),
        match_ids(a, filters, last_seen, n) == match_ids(b, filters, last_seen, n),
    decreases n,
{
    assert forall|e: int| #[trigger]
        q_matches(a, e, filters, last_seen) == q_matches(b, e, filters, last_seen) by {
        assert(a.alive(e) == b.alive(e));
        if a.alive(e) {
            assert(a.slot(e) == b.slot(e));
            assert forall|i: int| 0 <= i < filters.len() implies passes_filter(
                a,
                e,
                #[trigger] filters[i],
                last_seen,
            ) == passes_filter(b, e, filters[i], last_seen) by {
                match filters[i] {
                    Filter::With(k) => {
                        assert(a.comp(e, k) == b.comp(e, k));
                    },
                    Filter::Without(k) => {
                        assert(a.comp(e, k) == b.comp(e, k));
                    },
                    Filter::Changed(k) => {
                        assert(a.comp(e, k) == b.comp(e, k));
                    },
                }
            }
        }
    }
    if n > 0 {
        lemma_match_agree(a, b, filters, last_seen, n - 1);
        assert(match_ids(a, filters, last_seen, n) == match_ids(b, filters, last_seen, n));
    }
}

/// A token for one live query borrow, handed back to the store to end
/// the borrow.
#[derive(Clone, Copy, PartialEq, Eq, Structural, Debug)]
pub struct QueryBorrow {
    pub id: u64,
}

/// Whether the key sets `(reads, writes)` conflict with some live
/// borrow of `w`.
pub open spec fn some_conflict(w: WorldV, reads: Seq<ComponentKey>, writes: Seq<ComponentKey>) -> bool {
    exists|i: int| 0 <= i < w.borrows.len() && conflicts_with(#[trigger] w.borrows[i], reads, writes)
}

/// Whether the two exec key lists share a key.
pub(crate) fn keys_overlap(a: &Vec<ComponentKey>, b: &Vec<ComponentKey>) -> (r: bool)
    ensures
        r == overlaps(a@, b@),
{
    let mut i: usize = 0;
    while i < a.len()
        invariant
            i <= a@.len(),
            forall|k: int, j: int|
                0 <= k < i && 0 <= j < b@.len() ==> #[trigger] a@[k] != #[trigger] b@[j],
        decreases a@.len() - i,
    {
        let mut j: usize = 0;
        while j < b.len()
            invariant
                i < a@.len(),
                j <= b@.len(),
                forall|k: int| 0 <= k < j ==> a@[i as int] != #[trigger] b@[k],
            decreases b@.len() - j,
        {
            if a[i] == b[j] {
                return true;
            }
            j = j + 1;
        }
        i = i + 1;
    }
    false
}


/// Law: despawning an entity removes it and its entire subtree from
/// every subsequent query: after the despawn, no query of any shape
/// matches a member of the subtree, because matching requires the
/// entity to be live.
pub proof fn lemma_despawn_excludes_subtree(
    pre: WorldV,
    e: int,
    post: WorldV,
    x: int,
    filters: Seq<Filter>,
    last_seen: u64,
)
    requires
        pre.wf(),
        pre.alive(e),
        pre.rel_despawn(e, post),
        pre.alive(x),
        pre.in_subtree(e, x),
    ensures
        !q_matches(post, x, filters, last_seen),
{
    assert(!post.alive(x));
}

/// A copy of an exec key list (component keys are plain values).
pub(crate) fn copy_keys(a: &Vec<ComponentKey>) -> (r: Vec<ComponentKey>)
    ensures
        r@ == a@,
{
    let mut out: Vec<ComponentKey> = Vec::new();
    let mut i: usize = 0;
    while i < a.len()
        invariant
            i <= a@.len(),
            out@ == a@.take(i as int),
        decreases a@.len() - i,
    {
        out.push(a[i]);
        proof {
            assert(out@ =~= a@.take(i + 1));
        }
        i = i + 1;
    }
    proof {
        assert(a@.take(a@.len() as int) =~= a@);
    }
    out
}

} // verus!
