//! The entity-component store: typed component storage keyed by entity
//! identity, parent-child relation edges kept consistent in both
//! directions, change ticks for incremental queries, and a registry of
//! live query borrows for runtime aliasing checks.
//!
//! Entity identities are slot indices that are never reused, and a child
//! is always spawned after its parent, so ids strictly increase along
//! every child edge. That ordering is part of the store invariant and is
//! what makes every traversal in this crate terminate.

use vstd::prelude::*;

use crate::math::Rect;
use crate::math::Vec2;
use crate::query::conflicts_with;
use crate::query::copy_keys;
use crate::query::keys_overlap;
use crate::query::some_conflict;
use crate::query::Query;
use crate::query::QueryBorrow;

verus! {

/// A stable, opaque entity identity. Identities are never reused, so a
/// despawned entity's id keeps naming the despawned entity.
#[derive(Clone, Copy, PartialEq, Eq, Structural, Debug)]
pub struct Entity {
    pub id: usize,
}

/// A component get/set named a despawned or never-spawned entity.
#[derive(Clone, Copy, PartialEq, Eq, Structural, Debug)]
pub struct EntityNotFound;

/// Two concurrently borrowed queries would alias a component for
/// writing.
#[derive(Clone, Copy, PartialEq, Eq, Structural, Debug)]
pub struct BorrowConflict;

/// The stable key of a component type: the closed registry of component
/// kinds this store can hold.
#[derive(Clone, Copy, PartialEq, Eq, Structural, Debug)]
pub enum ComponentKey {
    Rect,
    ScreenPosition,
    LocalPosition,
    Size,
    Payload,
}

/// A component value, tagged by kind.
#[derive(Clone, Copy, PartialEq, Eq, Structural, Debug)]
pub enum ComponentValue {
    Rect(Rect),
    Vec2(Vec2),
    Int(i64),
    Flag(bool),
}

/// Whether a value is of the kind its key names; rectangle components
/// additionally carry the rectangle invariant `min <= max`.
pub open spec fn key_admits(k: ComponentKey, v: ComponentValue) -> bool {
    match k {
        ComponentKey::Rect => match v {
            ComponentValue::Rect(r) => r.valid(),
            _ => false,
        },
        ComponentKey::ScreenPosition => v is Vec2,
        ComponentKey::LocalPosition => v is Vec2,
        ComponentKey::Size => v is Vec2,
        ComponentKey::Payload => v is Int,
    }
}

/// A stored component value together with the store tick at which it was
/// last written; the basis of the "changed since last observed" filter.
#[derive(Clone, Copy, PartialEq, Eq, Structural, Debug)]
pub struct Cell {
    pub value: ComponentValue,
    pub tick: u64,
}

struct SlotData {
    parent: Option<usize>,
    children: Vec<usize>,
    rect: Option<Cell>,
    screen_position: Option<Cell>,
    local_position: Option<Cell>,
    size: Option<Cell>,
    payload: Option<Cell>,
}

struct BorrowData {
    id: u64,
    reads: Vec<ComponentKey>,
    writes: Vec<ComponentKey>,
}

/// The mathematical model of one live entity.
#[verifier::ext_equal]
pub struct SlotV {
    pub parent: Option<usize>,
    pub children: Seq<usize>,
    pub rect: Option<Cell>,
    pub screen_position: Option<Cell>,
    pub local_position: Option<Cell>,
    pub size: Option<Cell>,
    pub payload: Option<Cell>,
}

impl SlotV {
    /// The stored cell under `k`.
    pub open spec fn comp(self, k: ComponentKey) -> Option<Cell> {
        match k {
            ComponentKey::Rect => self.rect,
            ComponentKey::ScreenPosition => self.screen_position,
            ComponentKey::LocalPosition => self.local_position,
            ComponentKey::Size => self.size,
            ComponentKey::Payload => self.payload,
        }
    }

    /// This slot with the cell under `k` replaced.
    pub open spec fn with_comp(self, k: ComponentKey, c: Option<Cell>) -> SlotV {
        match k {
            ComponentKey::Rect => SlotV { rect: c, ..self },
            ComponentKey::ScreenPosition => SlotV { screen_position: c, ..self },
            ComponentKey::LocalPosition => SlotV { local_position: c, ..self },
            ComponentKey::Size => SlotV { size: c, ..self },
            ComponentKey::Payload => SlotV { payload: c, ..self },
        }
    }
}

/// The mathematical model of one live query borrow.
#[verifier::ext_equal]
pub struct BorrowV {
    pub id: u64,
    pub reads: Seq<ComponentKey>,
    pub writes: Seq<ComponentKey>,
}

/// The mathematical model of the whole store.
#[verifier::ext_equal]
pub struct WorldV {
    pub slots: Seq<Option<SlotV>>,
    pub tick: u64,
    pub borrows: Seq<BorrowV>,
    pub next_borrow: u64,
}

impl WorldV {
    /// Number of identities ever issued.
    pub open spec fn n(self) -> int {
        self.slots.len() as int
    }

    /// Whether identity `e` names a live entity.
    pub open spec fn alive(self, e: int) -> bool {
        0 <= e < self.n() && self.slots[e] is Some
    }

    /// The slot of a live entity.
    pub open spec fn slot(self, e: int) -> SlotV {
        self.slots[e]->Some_0
    }

    pub open spec fn parent_of(self, e: int) -> Option<usize> {
        self.slot(e).parent
    }

    pub open spec fn children_of(self, e: int) -> Seq<usize> {
        self.slot(e).children
    }

    /// The stored cell of component `k` on entity `e`, if both exist.
    pub open spec fn comp(self, e: int, k: ComponentKey) -> Option<Cell> {
        if self.alive(e) {
            self.slot(e).comp(k)
        } else {
            None
        }
    }

    /// The stored value of component `k` on entity `e`, without its tick.
    pub open spec fn value_of(self, e: int, k: ComponentKey) -> Option<ComponentValue> {
        match self.comp(e, k) {
            Some(c) => Some(c.value),
            None => None,
        }
    }

    /// Validity of one stored cell.
    pub open spec fn cell_ok(self, oc: Option<Cell>, k: ComponentKey) -> bool {
        match oc {
            Some(c) => key_admits(k, c.value) && c.tick <= self.tick,
            None => true,
        }
    }

    /// The per-entity part of the store invariant: the parent edge points
    /// below `e` and is mirrored in the parent's children list; children
    /// lie above `e`, are live, distinct, and point back; and every
    /// stored component is admissible for its key.
    pub open spec fn slot_wf(self, e: int) -> bool {
        let s = self.slot(e);
        &&& match s.parent {
            Some(p) => (p as int) < e && self.alive(p as int) && self.children_of(
                p as int,
            ).contains(e as usize),
            None => true,
        }
        &&& forall|i: int|
            0 <= i < s.children.len() ==> {
                let c = #[trigger] s.children[i] as int;
                &&& e < c
                &&& self.alive(c)
                &&& self.parent_of(c) == Some(e as usize)
            }
        &&& forall|i: int, j: int|
            0 <= i < j < s.children.len() ==> #[trigger] s.children[i] != #[trigger] s.children[j]
        &&& self.cell_ok(s.rect, ComponentKey::Rect)
        &&& self.cell_ok(s.screen_position, ComponentKey::ScreenPosition)
        &&& self.cell_ok(s.local_position, ComponentKey::LocalPosition)
        &&& self.cell_ok(s.size, ComponentKey::Size)
        &&& self.cell_ok(s.payload, ComponentKey::Payload)
    }

    /// The store invariant.
    pub open spec fn wf(self) -> bool {
        &&& self.slots.len() <= usize::MAX
        &&& forall|e: int| #[trigger] self.alive(e) ==> self.slot_wf(e)
        &&& forall|i: int|
            0 <= i < self.borrows.len() ==> (#[trigger] self.borrows[i]).id < self.next_borrow
        &&& forall|i: int, j: int|
            0 <= i < j < self.borrows.len() ==> (#[trigger] self.borrows[i]).id != (
            #[trigger] self.borrows[j]).id
    }

    /// `x` lies in the subtree rooted at `e` (including `e` itself):
    /// the parent chain of `x` reaches `e`. Parent ids strictly decrease,
    /// so the recursion is on `x`.
    pub open spec fn in_subtree(self, e: int, x: int) -> bool
        decreases x,
        when self.wf() && self.alive(x) && 0 <= x
    {
        x == e || match self.parent_of(x) {
            Some(p) => self.in_subtree(e, p as int),
            None => false,
        }
    }

    /// The store after an unconditional write of `v` under `k` on `e`:
    /// the cell is stamped with the pre-write tick and the tick advances.
    pub open spec fn set_result(self, e: int, k: ComponentKey, v: ComponentValue) -> WorldV {
        WorldV {
            slots: self.slots.update(
                e,
                Some(
                    self.slot(e).with_comp(k, Some(Cell { value: v, tick: tick_next(self.tick) })),
                ),
            ),
            tick: tick_next(self.tick),
            ..self
        }
    }

    /// The store after removing the component under `k` on `e`.
    pub open spec fn remove_result(self, e: int, k: ComponentKey) -> WorldV {
        WorldV {
            slots: self.slots.update(e, Some(self.slot(e).with_comp(k, None))),
            tick: tick_next(self.tick),
            ..self
        }
    }

    /// The slots a despawn of `e` leaves for the survivors: the parent of
    /// `e` loses `e` from its children list, everything else is
    /// untouched.
    pub open spec fn despawned_slot(self, e: int, x: int) -> SlotV {
        if self.alive(e) && self.parent_of(e) is Some && x == self.parent_of(e)->Some_0 as int {
            SlotV { children: self.children_of(x).remove_value(e as usize), ..self.slot(x) }
        } else {
            self.slot(x)
        }
    }

    /// How a despawn of `e` relates the store before (`self`) to the
    /// store after (`post`): exactly the non-subtree entities survive,
    /// with their slots untouched but for the unlinked child edge.
    pub open spec fn rel_despawn(self, e: int, post: WorldV) -> bool {
        &&& post.n() == self.n()
        &&& post.tick == self.tick
        &&& post.borrows == self.borrows
        &&& post.next_borrow == self.next_borrow
        &&& forall|x: int|
            0 <= x < self.n() ==> (#[trigger] post.alive(x) <==> self.alive(x) && !self.in_subtree(
                e,
                x,
            ))
        &&& forall|x: int| #[trigger] post.alive(x) ==> post.slot(x) == self.despawned_slot(e, x)
    }
}

/// The slot entity `x` ends up with when the subtree of `e` is torn
/// out of `mid`: cleared for subtree members, untouched otherwise.
pub open spec fn killed_slot(mid: WorldV, e: int, x: int) -> Option<SlotV> {
    if mid.alive(x) && mid.in_subtree(e, x) {
        None
    } else {
        mid.slots[x]
    }
}

/// Slot readers see no difference between two stores whose slots are
/// equal (the borrow registry is invisible to them).
pub proof fn lemma_value_agree(a: WorldV, b: WorldV, x: int, k: ComponentKey)
    requires
        a.slots == b.slots,
    ensures
        a.alive(x) == b.alive(x),
        a.comp(x, k) == b.comp(x, k),
        a.value_of(x, k) == b.value_of(x, k),
{
    assert(a.n() == b.n());
    if a.alive(x) {
        assert(a.slot(x) == b.slot(x));
    }
}

/// A member of the subtree of `e` has an id no smaller than `e`, and the
/// subtree's root is live.
pub proof fn lemma_in_subtree_ge(w: WorldV, e: int, x: int)
    requires
        w.wf(),
        w.alive(x),
        w.in_subtree(e, x),
    ensures
        e <= x,
        w.alive(e),
    decreases x,
{
    if x != e {
        match w.parent_of(x) {
            Some(p) => {
                lemma_in_subtree_ge(w, e, p as int);
            },
            None => {},
        }
    }
}

/// Subtree membership is transitive along the ancestor chain.
pub proof fn lemma_in_subtree_trans(w: WorldV, e: int, c: int, x: int)
    requires
        w.wf(),
        w.alive(x),
        w.in_subtree(c, x),
        w.alive(c),
        w.in_subtree(e, c),
    ensures
        w.in_subtree(e, x),
    decreases x,
{
    if x != c {
        match w.parent_of(x) {
            Some(p) => {
                lemma_in_subtree_trans(w, e, c, p as int);
            },
            None => {},
        }
    }
}

/// Two subtree roots holding a common member lie on one ancestor
/// chain: one contains the other.
pub proof fn lemma_in_subtree_chain(w: WorldV, a: int, b: int, x: int)
    requires
        w.wf(),
        w.alive(x),
        w.in_subtree(a, x),
        w.in_subtree(b, x),
    ensures
        w.in_subtree(a, b) || w.in_subtree(b, a),
    decreases x,
{
    if x == a {
        assert(w.in_subtree(b, a));
    } else if x == b {
        assert(w.in_subtree(a, b));
    } else {
        match w.parent_of(x) {
            Some(p) => {
                lemma_in_subtree_chain(w, a, b, p as int);
            },
            None => {},
        }
    }
}

/// The subtrees of two distinct children of one entity are disjoint.
pub proof fn lemma_sibling_subtrees_disjoint(w: WorldV, e: usize, c1: int, c2: int, x: int)
    requires
        w.wf(),
        w.alive(c1),
        w.alive(c2),
        w.parent_of(c1) == Some(e),
        w.parent_of(c2) == Some(e),
        c1 != c2,
        w.alive(x),
        w.in_subtree(c1, x),
    ensures
        !w.in_subtree(c2, x),
{
    if w.in_subtree(c2, x) {
        lemma_in_subtree_chain(w, c1, c2, x);
        assert(w.slot_wf(c1));
        assert(w.alive(e as int));
        if w.in_subtree(c1, c2) {
            assert(c2 != c1);
            assert(w.in_subtree(c1, e as int));
            lemma_in_subtree_ge(w, c1, e as int);
            assert(w.slot_wf(c1));
            assert((e as int) < c1);
        } else {
            assert(c1 != c2);
            assert(w.in_subtree(c2, e as int));
            lemma_in_subtree_ge(w, c2, e as int);
            assert(w.slot_wf(c2));
            assert((e as int) < c2);
        }
    }
}

/// A strict member of the subtree of `e` lies in the subtree of
/// exactly one child of `e`.
pub proof fn lemma_subtree_through_child(w: WorldV, e: int, x: int)
    requires
        w.wf(),
        w.alive(x),
        w.in_subtree(e, x),
        x != e,
    ensures
        exists|i: int|
            0 <= i < w.children_of(e).len() && w.in_subtree(
                #[trigger] w.children_of(e)[i] as int,
                x,
            ),
    decreases x,
{
    lemma_in_subtree_ge(w, e, x);
    match w.parent_of(x) {
        Some(p) => {
            if p as int == e {
                let ch = w.children_of(e);
                assert(ch.contains(x as usize));
                let i = choose|i: int| 0 <= i < ch.len() && ch[i] == x as usize;
                assert(w.in_subtree(ch[i] as int, x));
            } else {
                lemma_subtree_through_child(w, e, p as int);
                let i = choose|i: int|
                    0 <= i < w.children_of(e).len() && w.in_subtree(
                        #[trigger] w.children_of(e)[i] as int,
                        p as int,
                    );
                assert(w.in_subtree(w.children_of(e)[i] as int, x));
            }
        },
        None => {},
    }
}

/// Subtree membership with target `e` is unchanged between two stores
/// that agree on aliveness and on every parent edge except the one of
/// `e` itself (the chain test stops as soon as it reaches `e`).
pub proof fn lemma_in_subtree_agree(a: WorldV, b: WorldV, e: int, x: int)
    requires
        a.wf(),
        b.wf(),
        a.n() == b.n(),
        forall|y: int| #[trigger] a.alive(y) == b.alive(y),
        forall|y: int| #[trigger] a.alive(y) && y != e ==> a.parent_of(y) == b.parent_of(y),
    ensures
        a.alive(x) ==> (a.in_subtree(e, x) == b.in_subtree(e, x)),
    decreases x,
{
    if a.alive(x) && x != e {
        match a.parent_of(x) {
            Some(p) => {
                lemma_in_subtree_agree(a, b, e, p as int);
            },
            None => {},
        }
    }
}

impl View for SlotData {
    type V = SlotV;

    closed spec fn view(&self) -> SlotV {
        SlotV {
            parent: self.parent,
            children: self.children@,
            rect: self.rect,
            screen_position: self.screen_position,
            local_position: self.local_position,
            size: self.size,
            payload: self.payload,
        }
    }
}

impl View for BorrowData {
    type V = BorrowV;

    closed spec fn view(&self) -> BorrowV {
        BorrowV { id: self.id, reads: self.reads@, writes: self.writes@ }
    }
}

/// The entity store.
pub struct World {
    slots: Vec<Option<SlotData>>,
    tick: u64,
    borrows: Vec<BorrowData>,
    next_borrow: u64,
}

impl View for World {
    type V = WorldV;

    closed spec fn view(&self) -> WorldV {
        WorldV {
            slots: Seq::new(
                self.slots@.len(),
                |i: int|
                    match self.slots@[i] {
                        Some(ref d) => Some(d@),
                        None => None,
                    },
            ),
            tick: self.tick,
            borrows: Seq::new(self.borrows@.len(), |i: int| self.borrows@[i]@),
            next_borrow: self.next_borrow,
        }
    }
}

/// The next change tick; the counter saturates rather than wrap.
pub open spec fn tick_next(t: u64) -> u64 {
    if t == u64::MAX {
        t
    } else {
        (t + 1) as u64
    }
}

impl World {
    /// An empty store.
    pub fn new() -> (w: World)
        ensures
            w@.wf(),
            w@.n() == 0,
            w@.tick == 0,
            w@.borrows.len() == 0,
    {
        World { slots: Vec::new(), tick: 0, borrows: Vec::new(), next_borrow: 0 }
    }

    /// The current change tick.
    pub fn current_tick(&self) -> (t: u64)
        ensures
            t == self@.tick,
    {
        self.tick
    }

    /// Number of identities ever issued.
    pub fn entity_count(&self) -> (n: usize)
        ensures
            n == self@.n(),
    {
        self.slots.len()
    }

    pub fn is_alive(&self, e: Entity) -> (r: bool)
        ensures
            r == self@.alive(e.id as int),
    {
        e.id < self.slots.len() && self.slots[e.id].is_some()
    }

    /// Spawns a fresh root entity with no components and no relations.
    pub fn spawn(&mut self) -> (e: Entity)
        requires
            old(self)@.wf(),
        ensures
            final(self)@.wf(),
            e.id == old(self)@.n(),
            !old(self)@.alive(e.id as int),
            final(self)@.alive(e.id as int),
            final(self)@.slot(e.id as int) == (SlotV {
                parent: None,
                children: Seq::empty(),
                rect: None,
                screen_position: None,
                local_position: None,
                size: None,
                payload: None,
            }),
            final(self)@.slots == old(self)@.slots.push(
                Some(final(self)@.slot(e.id as int)),
            ),
            final(self)@.tick == old(self)@.tick,
            final(self)@.borrows == old(self)@.borrows,
            final(self)@.next_borrow == old(self)@.next_borrow,
    {
        let id = self.slots.len();
        self.slots.push(
            Some(
                SlotData {
                    parent: None,
                    children: Vec::new(),
                    rect: None,
                    screen_position: None,
                    local_position: None,
                    size: None,
                    payload: None,
                },
            ),
        );
        let grown = self.slots.len();
        proof {
            assert(self@.slots.len() == grown);
            assert(self@.slots =~= old(self)@.slots.push(Some(self@.slot(id as int))));
            assert(self@.borrows =~= old(self)@.borrows);
            assert forall|x: int| #[trigger] self@.alive(x) implies self@.slot_wf(x) by {
                if x < id {
                    assert(old(self)@.alive(x));
                    assert(old(self)@.slot_wf(x));
                    assert(self@.slot(x) == old(self)@.slot(x));
                    assert forall|i: int| 0 <= i < self@.slot(x).children.len() implies {
                        let c = #[trigger] self@.slot(x).children[i] as int;
                        x < c && self@.alive(c) && self@.parent_of(c) == Some(x as usize)
                    } by {
                        let c = self@.slot(x).children[i] as int;
                        assert(old(self)@.alive(c));
                    }
                }
            }
        }
        Entity { id }
    }

    /// Spawns a fresh entity as a child of `parent`, wiring the relation
    /// edge in both directions. The new id is larger than every existing
    /// id, so the relation forest stays acyclic by construction.
    pub fn spawn_child(&mut self, parent: Entity) -> (r: Result<Entity, EntityNotFound>)
        requires
            old(self)@.wf(),
        ensures
            final(self)@.wf(),
            r is Err <==> !old(self)@.alive(parent.id as int),
            r is Err ==> final(self)@ == old(self)@,
            r is Ok ==> {
                let e = r->Ok_0.id as int;
                &&& e == old(self)@.n()
                &&& final(self)@.n() == old(self)@.n() + 1
                &&& final(self)@.alive(e)
                &&& final(self)@.slot(e) == (SlotV {
                    parent: Some(parent.id),
                    children: Seq::empty(),
                    rect: None,
                    screen_position: None,
                    local_position: None,
                    size: None,
                    payload: None,
                })
                &&& final(self)@.slot(parent.id as int) == (SlotV {
                    children: old(self)@.children_of(parent.id as int).push(r->Ok_0.id),
                    ..old(self)@.slot(parent.id as int)
                })
                &&& forall|x: int|
                    0 <= x < old(self)@.n() && x != parent.id as int ==> final(self)@.slots[x]
                        == old(self)@.slots[x]
                &&& final(self)@.tick == old(self)@.tick
                &&& final(self)@.borrows == old(self)@.borrows
                &&& final(self)@.next_borrow == old(self)@.next_borrow
            },
    {
        if !self.is_alive(parent) {
            return Err(EntityNotFound);
        }
        let id = self.slots.len();
        self.slots.push(
            Some(
                SlotData {
                    parent: Some(parent.id),
                    children: Vec::new(),
                    rect: None,
                    screen_position: None,
                    local_position: None,
                    size: None,
                    payload: None,
                },
            ),
        );
        let grown = self.slots.len();
        proof {
            assert(self@.slots.len() == grown);
        }
        let slot = &mut self.slots[parent.id];
        match slot {
            Some(data) => {
                data.children.push(id);
            },
            None => {
                proof {
                    assert(false);
                }
            },
        }
        proof {
            let newv = self@;
            let oldv = old(self)@;
            assert(newv.borrows =~= oldv.borrows);
            assert(newv.slot(parent.id as int) =~= SlotV {
                children: oldv.children_of(parent.id as int).push(id),
                ..oldv.slot(parent.id as int)
            });
            assert(newv.slot(id as int) =~= SlotV {
                parent: Some(parent.id),
                children: Seq::empty(),
                rect: None,
                screen_position: None,
                local_position: None,
                size: None,
                payload: None,
            });
            assert forall|x: int| #[trigger] newv.alive(x) implies newv.slot_wf(x) by {
                if x == id as int {
                    let nc = newv.children_of(parent.id as int);
                    assert(nc == oldv.children_of(parent.id as int).push(id));
                    assert(nc[nc.len() - 1] == id);
                    assert(nc.contains(id));
                } else {
                    assert(oldv.alive(x));
                    assert(oldv.slot_wf(x));
                    if x == parent.id as int {
                        let oc = oldv.children_of(x);
                        let nc = newv.children_of(x);
                        assert(nc =~= oc.push(id));
                        assert forall|i: int| 0 <= i < nc.len() implies {
                            let c = #[trigger] nc[i] as int;
                            x < c && newv.alive(c) && newv.parent_of(c) == Some(x as usize)
                        } by {
                            if i < oc.len() {
                                assert(oc[i] == nc[i]);
                                assert(oldv.alive(nc[i] as int));
                            } else {
                                assert(nc[i] == id);
                            }
                        }
                        assert forall|i: int, j: int| 0 <= i < j < nc.len() implies (
                        #[trigger] nc[i]) != (#[trigger] nc[j]) by {
                            if j < oc.len() {
                            } else {
                                assert(nc[j] == id);
                                assert(oldv.alive(oc[i] as int));
                            }
                        }
                    } else {
                        assert(newv.slot(x) == oldv.slot(x));
                        assert forall|i: int| 0 <= i < newv.slot(x).children.len() implies {
                            let c = #[trigger] newv.slot(x).children[i] as int;
                            x < c && newv.alive(c) && newv.parent_of(c) == Some(x as usize)
                        } by {
                            let c = newv.slot(x).children[i] as int;
                            assert(oldv.alive(c));
                            assert(c != id as int);
                        }
                        match newv.slot(x).parent {
                            Some(p) => {
                                assert(oldv.alive(p as int));
                                if p as int == parent.id as int {
                                    assert(newv.children_of(p as int) == oldv.children_of(
                                        p as int,
                                    ).push(id));
                                    assert(oldv.children_of(p as int).contains(x as usize));
                                    let k = choose|k: int|
                                        0 <= k < oldv.children_of(p as int).len()
                                            && oldv.children_of(p as int)[k] == x as usize;
                                    assert(newv.children_of(p as int)[k] == x as usize);
                                    assert(newv.children_of(p as int).contains(x as usize));
                                }
                            },
                            None => {},
                        }
                    }
                }
            }
        }
        Ok(Entity { id })
    }

    /// The parent of `e`, if `e` is live and has one.
    pub fn parent(&self, e: Entity) -> (r: Option<Entity>)
        ensures
            match r {
                Some(p) => self@.alive(e.id as int) && self@.parent_of(e.id as int) == Some(p.id),
                None => !self@.alive(e.id as int) || self@.parent_of(e.id as int) is None,
            },
    {
        if e.id < self.slots.len() {
            match &self.slots[e.id] {
                Some(d) => match d.parent {
                    Some(p) => Some(Entity { id: p }),
                    None => None,
                },
                None => None,
            }
        } else {
            None
        }
    }

    /// The children of `e`, in attachment order; empty if `e` is not live.
    pub fn children(&self, e: Entity) -> (r: Vec<Entity>)
        ensures
            self@.alive(e.id as int) ==> {
                &&& r@.len() == self@.children_of(e.id as int).len()
                &&& forall|i: int|
                    0 <= i < r@.len() ==> (#[trigger] r@[i]).id == self@.children_of(e.id as int)[i]
            },
            !self@.alive(e.id as int) ==> r@.len() == 0,
    {
        let mut out: Vec<Entity> = Vec::new();
        if e.id >= self.slots.len() {
            return out;
        }
        match &self.slots[e.id] {
            Some(d) => {
                let mut i: usize = 0;
                while i < d.children.len()
                    invariant
                        i <= d.children.len(),
                        out@.len() == i,
                        forall|k: int| 0 <= k < i ==> (#[trigger] out@[k]).id == d.children@[k],
                    decreases d.children.len() - i,
                {
                    out.push(Entity { id: d.children[i] });
                    i = i + 1;
                }
            },
            None => {},
        }
        out
    }

    /// All live root entities (entities with no parent), in ascending
    /// id order.
    pub fn roots(&self) -> (r: Vec<Entity>)
        ensures
            forall|i: int|
                0 <= i < r@.len() ==> self@.alive((#[trigger] r@[i]).id as int) && self@.parent_of(
                    r@[i].id as int,
                ) is None,
            forall|x: int|
                self@.alive(x) && self@.parent_of(x) is None ==> exists|i: int|
                    0 <= i < r@.len() && (#[trigger] r@[i]).id == x,
            forall|i: int, j: int|
                0 <= i < j < r@.len() ==> (#[trigger] r@[i]).id < (#[trigger] r@[j]).id,
    {
        let mut out: Vec<Entity> = Vec::new();
        let n = self.slots.len();
        let mut e: usize = 0;
        while e < n
            invariant
                e <= n,
                n == self@.n(),
                forall|i: int|
                    0 <= i < out@.len() ==> self@.alive((#[trigger] out@[i]).id as int)
                        && self@.parent_of(out@[i].id as int) is None && out@[i].id < e,
                forall|x: int|
                    0 <= x < e && self@.alive(x) && self@.parent_of(x) is None ==> exists|i: int|
                        0 <= i < out@.len() && (#[trigger] out@[i]).id == x,
                forall|i: int, j: int|
                    0 <= i < j < out@.len() ==> (#[trigger] out@[i]).id < (#[trigger] out@[j]).id,
            decreases n - e,
        {
            let is_root = match &self.slots[e] {
                Some(d) => d.parent.is_none(),
                None => false,
            };
            let ghost prev = out@;
            if is_root {
                out.push(Entity { id: e });
            }
            proof {
                assert forall|x: int|
                    0 <= x < e + 1 && self@.alive(x) && self@.parent_of(x)
                        is None implies exists|i: int|
                    0 <= i < out@.len() && (#[trigger] out@[i]).id == x by {
                    if x == e as int {
                        assert(out@[out@.len() - 1].id == x);
                    } else {
                        let i = choose|i: int| 0 <= i < prev.len() && (#[trigger] prev[i]).id == x;
                        assert(out@[i].id == x);
                    }
                }
            }
            e = e + 1;
        }
        out
    }

    /// The stored cell (value and change tick) of component `key` on `e`.
    pub fn get_cell(&self, e: Entity, key: ComponentKey) -> (r: Option<Cell>)
        ensures
            r == self@.comp(e.id as int, key),
    {
        if e.id >= self.slots.len() {
            return None;
        }
        match &self.slots[e.id] {
            Some(d) => match key {
                ComponentKey::Rect => d.rect,
                ComponentKey::ScreenPosition => d.screen_position,
                ComponentKey::LocalPosition => d.local_position,
                ComponentKey::Size => d.size,
                ComponentKey::Payload => d.payload,
            },
            None => None,
        }
    }

    /// The stored value of component `key` on `e`; `None` for a missing
    /// component or a despawned entity.
    pub fn get(&self, e: Entity, key: ComponentKey) -> (r: Option<ComponentValue>)
        ensures
            r == self@.value_of(e.id as int, key),
    {
        match self.get_cell(e, key) {
            Some(c) => Some(c.value),
            None => None,
        }
    }

    /// Writes component `key` on `e` unconditionally, stamping it with
    /// the current change tick and advancing the tick.
    pub fn set(&mut self, e: Entity, key: ComponentKey, value: ComponentValue) -> (r: Result<
        (),
        EntityNotFound,
    >)
        requires
            old(self)@.wf(),
            key_admits(key, value),
        ensures
            final(self)@.wf(),
            r is Err <==> !old(self)@.alive(e.id as int),
            r is Err ==> final(self)@ == old(self)@,
            r is Ok ==> final(self)@ == old(self)@.set_result(e.id as int, key, value),
    {
        if e.id >= self.slots.len() {
            proof {
                assert(self@ =~= old(self)@);
            }
            return Err(EntityNotFound);
        }
        let t = self.tick;
        let t2 = if t == u64::MAX {
            t
        } else {
            t + 1
        };
        let slot = &mut self.slots[e.id];
        match slot {
            Some(d) => {
                let cell = Some(Cell { value, tick: t2 });
                match key {
                    ComponentKey::Rect => d.rect = cell,
                    ComponentKey::ScreenPosition => d.screen_position = cell,
                    ComponentKey::LocalPosition => d.local_position = cell,
                    ComponentKey::Size => d.size = cell,
                    ComponentKey::Payload => d.payload = cell,
                }
            },
            None => {
                proof {
                    assert(self@ =~= old(self)@);
                }
                return Err(EntityNotFound);
            },
        }
        self.tick = t2;
        proof {
            let oldv = old(self)@;
            let newv = self@;
            let target = WorldV {
                slots: oldv.slots.update(
                    e.id as int,
                    Some(
                        oldv.slot(e.id as int).with_comp(
                            key,
                            Some(Cell { value, tick: tick_next(oldv.tick) }),
                        ),
                    ),
                ),
                tick: tick_next(oldv.tick),
                ..oldv
            };
            assert(newv.slots =~= target.slots);
            assert(newv.borrows =~= oldv.borrows);
            assert(newv =~= target);
            Self::lemma_comp_write_wf(oldv, newv, e.id as int, key);
        }
        Ok(())
    }

    /// Writes component `key` on `e` only if the stored value differs
    /// from `value`; an equal write is a no-op that leaves every change
    /// tick untouched, so downstream "changed" filters stay quiet.
    pub fn update_dedup(&mut self, e: Entity, key: ComponentKey, value: ComponentValue) -> (r:
        Result<(), EntityNotFound>)
        requires
            old(self)@.wf(),
            key_admits(key, value),
        ensures
            final(self)@.wf(),
            r is Err <==> !old(self)@.alive(e.id as int),
            r is Err ==> final(self)@ == old(self)@,
            r is Ok && old(self)@.value_of(e.id as int, key) == Some(value) ==> final(self)@ == old(
                self,
            )@,
            r is Ok && old(self)@.value_of(e.id as int, key) != Some(value) ==> final(self)@ == old(
                self,
            )@.set_result(e.id as int, key, value),
    {
        match self.get(e, key) {
            Some(cur) => {
                if cur == value {
                    return Ok(());
                }
            },
            None => {
                if e.id >= self.slots.len() || self.slots[e.id].is_none() {
                    return Err(EntityNotFound);
                }
            },
        }
        self.set(e, key, value)
    }

    /// Removes component `key` from `e`; removing an absent component is
    /// a no-op. Advances the change tick when the component was present.
    pub fn remove(&mut self, e: Entity, key: ComponentKey) -> (r: Result<(), EntityNotFound>)
        requires
            old(self)@.wf(),
        ensures
            final(self)@.wf(),
            r is Err <==> !old(self)@.alive(e.id as int),
            r is Err ==> final(self)@ == old(self)@,
            r is Ok && old(self)@.comp(e.id as int, key) is None ==> final(self)@ == old(self)@,
            r is Ok && old(self)@.comp(e.id as int, key) is Some ==> final(self)@ == old(
                self,
            )@.remove_result(e.id as int, key),
    {
        if e.id >= self.slots.len() {
            return Err(EntityNotFound);
        }
        let t = self.tick;
        let mut removed = false;
        let slot = &mut self.slots[e.id];
        match slot {
            Some(d) => {
                match key {
                    ComponentKey::Rect => {
                        removed = d.rect.is_some();
                        d.rect = None;
                    },
                    ComponentKey::ScreenPosition => {
                        removed = d.screen_position.is_some();
                        d.screen_position = None;
                    },
                    ComponentKey::LocalPosition => {
                        removed = d.local_position.is_some();
                        d.local_position = None;
                    },
                    ComponentKey::Size => {
                        removed = d.size.is_some();
                        d.size = None;
                    },
                    ComponentKey::Payload => {
                        removed = d.payload.is_some();
                        d.payload = None;
                    },
                }
            },
            None => {
                proof {
                    assert(self@ =~= old(self)@);
                }
                return Err(EntityNotFound);
            },
        }
        if removed {
            self.tick = if t == u64::MAX {
                t
            } else {
                t + 1
            };
        }
        proof {
            let oldv = old(self)@;
            let newv = self@;
            if oldv.comp(e.id as int, key) is None {
                assert(newv =~= oldv);
            } else {
                let target = WorldV {
                    slots: oldv.slots.update(
                        e.id as int,
                        Some(oldv.slot(e.id as int).with_comp(key, None)),
                    ),
                    tick: tick_next(oldv.tick),
                    ..oldv
                };
                assert(newv.slots =~= target.slots);
                assert(newv.borrows =~= oldv.borrows);
                assert(newv =~= target);
                Self::lemma_comp_clear_wf(oldv, newv, e.id as int, key);
            }
        }
        Ok(())
    }

    /// The position of `target` in the children list of `p`: the first
    /// index holding it.
    fn find_child_index(&self, p: usize, target: usize) -> (idx: usize)
        requires
            self@.wf(),
            self@.alive(p as int),
            self@.children_of(p as int).contains(target),
        ensures
            idx < self@.children_of(p as int).len(),
            self@.children_of(p as int)[idx as int] == target,
            forall|k: int| 0 <= k < idx ==> self@.children_of(p as int)[k] != target,
    {
        match &self.slots[p] {
            Some(d) => {
                let mut idx: usize = 0;
                while idx < d.children.len()
                    invariant
                        self@.alive(p as int),
                        d.children@ == self@.children_of(p as int),
                        self@.children_of(p as int).contains(target),
                        idx <= d.children@.len(),
                        forall|k: int| 0 <= k < idx ==> d.children@[k] != target,
                    decreases d.children@.len() - idx,
                {
                    if d.children[idx] == target {
                        return idx;
                    }
                    idx = idx + 1;
                }
                proof {
                    let k = choose|k: int|
                        0 <= k < self@.children_of(p as int).len() && self@.children_of(p as int)[k]
                            == target;
                    assert(false);
                }
                0
            },
            None => {
                proof {
                    assert(false);
                }
                0
            },
        }
    }

    /// Despawns `e` and its entire subtree: every entity whose parent
    /// chain reaches `e` stops being live, its identity is never reused,
    /// and the parent of `e` no longer lists `e` as a child. Descendants
    /// always have larger ids than `e`, so one forward pass over the
    /// slots above `e` removes exactly the subtree.
    #[verifier::rlimit(100)]
    #[verifier::loop_isolation(false)]
    pub fn despawn(&mut self, e: Entity) -> (r: Result<(), EntityNotFound>)
        requires
            old(self)@.wf(),
        ensures
            final(self)@.wf(),
            r is Err <==> !old(self)@.alive(e.id as int),
            r is Err ==> final(self)@ == old(self)@,
            r is Ok ==> old(self)@.rel_despawn(e.id as int, final(self)@),
    {
        if !self.is_alive(e) {
            return Err(EntityNotFound);
        }
        let ghost oldv = self@;
        // Unlink e from its parent's children list, and clear e's own
        // parent edge; aliveness is untouched by this phase.
        let par: Option<usize> = match &self.slots[e.id] {
            Some(d) => d.parent,
            None => None,
        };
        match par {
            Some(p) => {
                let idx = self.find_child_index(p, e.id);
                let slot = &mut self.slots[p];
                match slot {
                    Some(d) => {
                        d.children.remove(idx);
                    },
                    None => {
                        proof {
                            assert(false);
                        }
                    },
                }
                proof {
                    let ch = oldv.children_of(p as int);
                    ch.index_of_first_ensures(e.id);
                    match ch.index_of_first(e.id) {
                        Some(f) => {
                            assert forall|k: int| 0 <= k < idx implies ch[k] != e.id by {}
                            assert(f == idx as int);
                            assert(self@.children_of(p as int) =~= ch.remove_value(e.id));
                        },
                        None => {
                            assert(ch.contains(e.id));
                            assert(false);
                        },
                    }
                }
            },
            None => {},
        }
        let slot = &mut self.slots[e.id];
        match slot {
            Some(d) => {
                d.parent = None;
            },
            None => {
                proof {
                    assert(false);
                }
            },
        }
        let n = self.slots.len();
        let ghost mid = self@;
        proof {
            assert(mid.n() == n as int);
            assert(mid.n() == oldv.n());
            assert(mid.borrows =~= oldv.borrows);
            assert forall|x: int| #[trigger] mid.alive(x) == oldv.alive(x) by {}
            assert forall|x: int|
                oldv.alive(x) && x != e.id as int implies mid.slot(x) == oldv.despawned_slot(
                e.id as int,
                x,
            ) by {}
            assert(mid.slot(e.id as int) == (SlotV { parent: None, ..oldv.slot(e.id as int) }));
            // mid is well-formed: the removed edge only shrank one
            // children list.
            assert forall|x: int| #[trigger] mid.alive(x) implies mid.slot_wf(x) by {
                assert(oldv.slot_wf(x));
                let s = mid.slot(x);
                let so = oldv.slot(x);
                match s.parent {
                    Some(q) => {
                        assert(so.parent == Some(q));
                        assert(mid.alive(q as int));
                        if oldv.parent_of(e.id as int) is Some && q as int == oldv.parent_of(
                            e.id as int,
                        )->Some_0 as int {
                            let ch = oldv.children_of(q as int);
                            let f = ch.index_of_first(e.id)->Some_0;
                            ch.index_of_first_ensures(e.id);
                            assert(ch.contains(x as usize));
                            let k = choose|k: int| 0 <= k < ch.len() && ch[k] == x as usize;
                            assert(x != e.id as int);
                            assert(0 <= x < mid.n());
                            assert(x as usize as int == x);
                            assert(ch[f] == e.id);
                            assert(k != f);
                            let nc = mid.children_of(q as int);
                            assert(nc == ch.remove(f));
                            ch.remove_ensures(f);
                            if k < f {
                                assert(nc[k] == x as usize);
                            } else {
                                assert(nc[k - 1] == x as usize);
                            }
                            assert(nc.contains(x as usize));
                        } else {
                            assert(mid.children_of(q as int) == oldv.children_of(q as int));
                        }
                    },
                    None => {},
                }
                if oldv.parent_of(e.id as int) is Some && x == oldv.parent_of(
                    e.id as int,
                )->Some_0 as int {
                    let ch = oldv.children_of(x);
                    let f = ch.index_of_first(e.id)->Some_0;
                    ch.index_of_first_ensures(e.id);
                    ch.remove_ensures(f);
                    let nc = s.children;
                    assert(nc == ch.remove(f));
                    assert forall|i: int| 0 <= i < nc.len() implies {
                        let c = #[trigger] nc[i] as int;
                        x < c && mid.alive(c) && mid.parent_of(c) == Some(x as usize)
                    } by {
                        let iorig: int = if i < f {
                            i
                        } else {
                            i + 1
                        };
                        assert(nc[i] == ch[iorig]);
                        assert(oldv.alive(ch[iorig] as int));
                        assert(nc[i] != e.id);
                    }
                    assert forall|i: int, j: int| 0 <= i < j < nc.len() implies (
                    #[trigger] nc[i]) != (#[trigger] nc[j]) by {
                        let iorig: int = if i < f {
                            i
                        } else {
                            i + 1
                        };
                        let jorig: int = if j < f {
                            j
                        } else {
                            j + 1
                        };
                        assert(nc[i] == ch[iorig]);
                        assert(nc[j] == ch[jorig]);
                    }
                } else {
                    if x != e.id as int {
                        assert(s.children == so.children);
                        assert forall|i: int| 0 <= i < s.children.len() implies {
                            let c = #[trigger] s.children[i] as int;
                            x < c && mid.alive(c) && mid.parent_of(c) == Some(x as usize)
                        } by {
                            assert(oldv.alive(s.children[i] as int));
                            assert(s.children[i] as int != e.id as int);
                        }
                    } else {
                        assert forall|i: int| 0 <= i < s.children.len() implies {
                            let c = #[trigger] s.children[i] as int;
                            x < c && mid.alive(c) && mid.parent_of(c) == Some(x as usize)
                        } by {
                            assert(oldv.alive(s.children[i] as int));
                            assert(s.children[i] as int != e.id as int);
                        }
                    }
                }
            }
            assert(mid.wf());
            // Subtree membership is the same question in both stores.
            assert forall|x: int| oldv.alive(x) implies #[trigger] oldv.in_subtree(e.id as int, x)
                == mid.in_subtree(e.id as int, x) by {
                lemma_in_subtree_agree(oldv, mid, e.id as int, x);
            }
        }
        // Kill pass: every id at or above e whose parent slot has already
        // been cleared belongs to the subtree.
        proof {
            assert forall|x: int| 0 <= x < e.id implies self@.slots[x] == killed_slot(mid, e.id as int, x) by {
                if mid.alive(x) && mid.in_subtree(e.id as int, x) {
                    lemma_in_subtree_ge(mid, e.id as int, x);
                }
            }
        }
        let mut j = e.id;
        while j < n
            invariant
                mid.wf(),
                e.id <= j,
                n == mid.n(),
                mid.alive(e.id as int),
                mid.parent_of(e.id as int) is None,
                self@.n() == n,
                self@.tick == mid.tick,
                self@.borrows == mid.borrows,
                self@.next_borrow == mid.next_borrow,
                forall|x: int| j <= x < n ==> self@.slots[x] == mid.slots[x],
                forall|x: int|
                    0 <= x < j ==> self@.slots[x] == killed_slot(mid, e.id as int, x),
            decreases n - j,
        {
            let ghost pre_slots = self@.slots;
            proof {
                assert forall|x: int| 0 <= x < j implies pre_slots[x] == killed_slot(
                    mid,
                    e.id as int,
                    x,
                ) by {
                    assert(self@.slots[x] == killed_slot(mid, e.id as int, x));
                }
                assert forall|x: int| j <= x < n implies pre_slots[x] == mid.slots[x] by {
                    assert(self@.slots[x] == mid.slots[x]);
                }
                assert(pre_slots.len() == n);
            }
            let kill: bool = if j == e.id {
                true
            } else {
                match &self.slots[j] {
                    Some(d) => match d.parent {
                        Some(p) => {
                            proof {
                                assert(mid.alive(j as int));
                                assert(mid.slot_wf(j as int));
                            }
                            self.slots[p].is_none()
                        },
                        None => false,
                    },
                    None => false,
                }
            };
            proof {
                // The parent-slot test decides subtree membership.
                if j == e.id {
                    assert(mid.in_subtree(e.id as int, j as int));
                    assert(kill == (mid.alive(j as int) && mid.in_subtree(e.id as int, j as int)));
                } else {
                    assert(self@.slots[j as int] == mid.slots[j as int]);
                    if mid.alive(j as int) {
                        assert(mid.slot_wf(j as int));
                        match mid.parent_of(j as int) {
                            Some(p) => {
                                assert((p as int) < j as int);
                                assert(mid.alive(p as int));
                                if (p as int) < e.id as int {
                                    if mid.in_subtree(e.id as int, p as int) {
                                        lemma_in_subtree_ge(mid, e.id as int, p as int);
                                    }
                                    assert(self@.slots[p as int] == mid.slots[p as int]);
                                    assert(self@.slots[p as int] is Some);
                                    assert(!mid.in_subtree(e.id as int, p as int));
                                } else {
                                    assert(self@.slots[p as int] == (if mid.alive(p as int)
                                        && mid.in_subtree(e.id as int, p as int) {
                                        None
                                    } else {
                                        mid.slots[p as int]
                                    }));
                                }
                                assert(kill == mid.in_subtree(e.id as int, p as int));
                                assert(mid.in_subtree(e.id as int, j as int) == mid.in_subtree(
                                    e.id as int,
                                    p as int,
                                ));
                            },
                            None => {
                                assert(!mid.in_subtree(e.id as int, j as int));
                                assert(!kill);
                            },
                        }
                    } else {
                        assert(!kill);
                    }
                    assert(kill == (mid.alive(j as int) && mid.in_subtree(e.id as int, j as int)));
                }
            }
            proof {
                assert(self@.slots == pre_slots);
            }
            if kill {
                let slot = &mut self.slots[j];
                *slot = None;
            }
            proof {
                if kill {
                    assert(self@.slots =~= pre_slots.update(j as int, None));
                } else {
                    assert(self@.slots =~= pre_slots);
                }
                assert forall|x: int| 0 <= x < j + 1 implies self@.slots[x] == killed_slot(mid, e.id as int, x) by {
                    if x == j as int {
                        if kill {
                            assert(self@.slots[x] is None);
                            assert(mid.alive(x) && mid.in_subtree(e.id as int, x));
                        } else {
                            assert(self@.slots[x] == pre_slots[x]);
                            assert(pre_slots[x] == mid.slots[x]);
                            assert(!(mid.alive(x) && mid.in_subtree(e.id as int, x)));
                        }
                    } else {
                        assert(self@.slots[x] == pre_slots[x]);
                        assert(pre_slots[x] == killed_slot(mid, e.id as int, x));
                    }
                }
            }
            j = j + 1;
        }
        proof {
            let post = self@;
            assert forall|x: int| 0 <= x < oldv.n() implies (#[trigger] post.alive(x) == (
            oldv.alive(x) && !oldv.in_subtree(e.id as int, x))) by {
                assert(post.n() == n as int);
                assert(0 <= x < j as int);
                assert(post.slots[x] == killed_slot(mid, e.id as int, x));
                assert(mid.alive(x) == oldv.alive(x));
                if oldv.alive(x) {
                    assert(oldv.in_subtree(e.id as int, x) == mid.in_subtree(e.id as int, x));
                }
            }
            assert forall|x: int| #[trigger] post.alive(x) implies post.slot(x)
                == oldv.despawned_slot(e.id as int, x) by {
                assert(post.n() == oldv.n());
                assert(0 <= x < oldv.n());
                assert(post.slots[x] == killed_slot(mid, e.id as int, x));
                assert(mid.alive(x) && !mid.in_subtree(e.id as int, x));
                assert(post.slot(x) == mid.slot(x));
                assert(x != e.id as int) by {
                    if x == e.id as int {
                        assert(mid.in_subtree(e.id as int, x));
                    }
                }
                assert(oldv.alive(x));
                assert(mid.slot(x) == oldv.despawned_slot(e.id as int, x));
            }
            assert(oldv.rel_despawn(e.id as int, post));
            // The survivors still satisfy the invariant: a survivor's
            // parent and children are all outside the subtree.
            assert forall|x: int| #[trigger] post.alive(x) implies post.slot_wf(x) by {
                assert(mid.alive(x) && !mid.in_subtree(e.id as int, x));
                assert(mid.slot_wf(x));
                let s = post.slot(x);
                assert(s == mid.slot(x));
                match s.parent {
                    Some(q) => {
                        assert(mid.alive(q as int));
                        assert(!mid.in_subtree(e.id as int, q as int)) by {
                            if mid.in_subtree(e.id as int, q as int) {
                                assert(mid.in_subtree(e.id as int, x));
                            }
                        }
                        assert(post.alive(q as int));
                        assert(post.children_of(q as int) == mid.children_of(q as int));
                    },
                    None => {},
                }
                assert forall|i: int| 0 <= i < s.children.len() implies {
                    let c = #[trigger] s.children[i] as int;
                    x < c && post.alive(c) && post.parent_of(c) == Some(x as usize)
                } by {
                    let c = s.children[i] as int;
                    assert(mid.alive(c));
                    assert(mid.parent_of(c) == Some(x as usize));
                    assert(!mid.in_subtree(e.id as int, c)) by {
                        if mid.in_subtree(e.id as int, c) {
                            assert(c != e.id as int) by {
                                if c == e.id as int {
                                    assert(mid.parent_of(e.id as int) is None);
                                }
                            }
                            assert(mid.in_subtree(e.id as int, x));
                        }
                    }
                    assert(post.slots[c] == killed_slot(mid, e.id as int, c));
                    assert(post.slots[c] == mid.slots[c]);
                }
            }
            assert(post.wf());
        }
        Ok(())
    }

    /// Registers a live borrow for `q`. Fails fast with a conflict, and
    /// changes nothing, exactly when some live borrow would alias a
    /// component of `q` for writing (or the store has exhausted its
    /// borrow identifiers); otherwise the borrow is recorded and its
    /// token returned.
    ///
    /// The registry is the runtime aliasing check: every built-in system
    /// takes a token here for its declared read and write sets before it
    /// touches any component and releases the token afterwards, so a
    /// pass whose access would alias a live borrow fails at this point,
    /// before anything is read or written, instead of proceeding.
    pub fn borrow_query(&mut self, q: &Query) -> (r: Result<QueryBorrow, BorrowConflict>)
        requires
            old(self)@.wf(),
        ensures
            final(self)@.wf(),
            r is Err <==> (some_conflict(old(self)@, q.reads@, q.writes@) || old(self)@.next_borrow
                == u64::MAX),
            r is Err ==> final(self)@ == old(self)@,
            r is Ok ==> final(self)@ == (WorldV {
                borrows: old(self)@.borrows.push(
                    BorrowV { id: old(self)@.next_borrow, reads: q.reads@, writes: q.writes@ },
                ),
                next_borrow: (old(self)@.next_borrow + 1) as u64,
                ..old(self)@
            }),
            r is Ok ==> r->Ok_0.id == old(self)@.next_borrow,
    {
        let count = self.borrows.len();
        let mut i: usize = 0;
        while i < count
            invariant
                old(self)@.wf(),
                self@ == old(self)@,
                count == self@.borrows.len(),
                i <= count,
                forall|k: int|
                    0 <= k < i ==> !conflicts_with(
                        #[trigger] self@.borrows[k],
                        q.reads@,
                        q.writes@,
                    ),
            decreases count - i,
        {
            let b = &self.borrows[i];
            let conflict = keys_overlap(&q.writes, &b.reads) || keys_overlap(&q.writes, &b.writes)
                || keys_overlap(&q.reads, &b.writes);
            if conflict {
                proof {
                    assert(self@.borrows[i as int] == old(self)@.borrows[i as int]);
                    assert(conflicts_with(old(self)@.borrows[i as int], q.reads@, q.writes@));
                }
                return Err(BorrowConflict);
            }
            i = i + 1;
        }
        if self.next_borrow == u64::MAX {
            return Err(BorrowConflict);
        }
        let id = self.next_borrow;
        let reads = copy_keys(&q.reads);
        let writes = copy_keys(&q.writes);
        self.borrows.push(BorrowData { id, reads, writes });
        self.next_borrow = id + 1;
        proof {
            let oldv = old(self)@;
            let newv = self@;
            assert(newv.slots =~= oldv.slots);
            assert(newv.borrows =~= oldv.borrows.push(
                BorrowV { id, reads: q.reads@, writes: q.writes@ },
            ));
            assert(newv =~= WorldV {
                borrows: oldv.borrows.push(BorrowV { id, reads: q.reads@, writes: q.writes@ }),
                next_borrow: (oldv.next_borrow + 1) as u64,
                ..oldv
            });
            assert forall|x: int| #[trigger] newv.alive(x) implies newv.slot_wf(x) by {
                assert(oldv.alive(x));
                assert(oldv.slot_wf(x));
                assert(newv.slot(x) == oldv.slot(x));
                assert forall|k: int| 0 <= k < newv.slot(x).children.len() implies {
                    let c = #[trigger] newv.slot(x).children[k] as int;
                    x < c && newv.alive(c) && newv.parent_of(c) == Some(x as usize)
                } by {
                    assert(oldv.alive(newv.slot(x).children[k] as int));
                }
                match newv.slot(x).parent {
                    Some(p) => {
                        assert(oldv.alive(p as int));
                    },
                    None => {},
                }
            }
            assert forall|k: int| 0 <= k < newv.borrows.len() implies (
            #[trigger] newv.borrows[k]).id < newv.next_borrow by {
                if k < oldv.borrows.len() {
                    assert(newv.borrows[k] == oldv.borrows[k]);
                }
            }
            assert forall|k: int, l: int| 0 <= k < l < newv.borrows.len() implies (
            #[trigger] newv.borrows[k]).id != (#[trigger] newv.borrows[l]).id by {
                if l < oldv.borrows.len() {
                } else {
                    assert(newv.borrows[l].id == id);
                    assert(newv.borrows[k] == oldv.borrows[k]);
                }
            }
        }
        Ok(QueryBorrow { id })
    }

    /// Ends the borrow named by `token`: its registry entry, if still
    /// present, is removed; every other borrow survives in order.
    pub fn release_query(&mut self, token: QueryBorrow)
        requires
            old(self)@.wf(),
        ensures
            final(self)@.wf(),
            final(self)@ == (WorldV { borrows: final(self)@.borrows, ..old(self)@ }),
            (exists|i: int|
                0 <= i < old(self)@.borrows.len() && (#[trigger] old(self)@.borrows[i]).id
                    == token.id) ==> exists|i: int|
                {
                    &&& 0 <= i < old(self)@.borrows.len()
                    &&& (#[trigger] old(self)@.borrows[i]).id == token.id
                    &&& final(self)@.borrows == old(self)@.borrows.remove(i)
                },
            !(exists|i: int|
                0 <= i < old(self)@.borrows.len() && (#[trigger] old(self)@.borrows[i]).id
                    == token.id) ==> final(self)@ == old(self)@,
            forall|i: int|
                0 <= i < final(self)@.borrows.len() ==> (#[trigger] final(self)@.borrows[i]).id
                    != token.id,
    {
        let count = self.borrows.len();
        let mut i: usize = 0;
        while i < count
            invariant
                old(self)@.wf(),
                self@ == old(self)@,
                count == self@.borrows.len(),
                i <= count,
                forall|k: int| 0 <= k < i ==> (#[trigger] self@.borrows[k]).id != token.id,
            decreases count - i,
        {
            if self.borrows[i].id == token.id {
                self.borrows.remove(i);
                proof {
                    let oldv = old(self)@;
                    let newv = self@;
                    assert(newv.slots =~= oldv.slots);
                    assert(newv.borrows =~= oldv.borrows.remove(i as int));
                    oldv.borrows.remove_ensures(i as int);
                    assert(newv =~= WorldV { borrows: oldv.borrows.remove(i as int), ..oldv });
                    assert forall|x: int| #[trigger] newv.alive(x) implies newv.slot_wf(x) by {
                        assert(oldv.alive(x));
                        assert(oldv.slot_wf(x));
                        assert forall|k: int| 0 <= k < newv.slot(x).children.len() implies {
                            let c = #[trigger] newv.slot(x).children[k] as int;
                            x < c && newv.alive(c) && newv.parent_of(c) == Some(x as usize)
                        } by {
                            assert(oldv.alive(newv.slot(x).children[k] as int));
                        }
                        match newv.slot(x).parent {
                            Some(p) => {
                                assert(oldv.alive(p as int));
                            },
                            None => {},
                        }
                    }
                    assert forall|k: int| 0 <= k < newv.borrows.len() implies (
                    #[trigger] newv.borrows[k]).id < newv.next_borrow by {
                        if k < i as int {
                            assert(newv.borrows[k] == oldv.borrows[k]);
                        } else {
                            assert(newv.borrows[k] == oldv.borrows[k + 1]);
                        }
                    }
                    assert forall|k: int, l: int| 0 <= k < l < newv.borrows.len() implies (
                    #[trigger] newv.borrows[k]).id != (#[trigger] newv.borrows[l]).id by {
                        let korig: int = if k < i as int {
                            k
                        } else {
                            k + 1
                        };
                        let lorig: int = if l < i as int {
                            l
                        } else {
                            l + 1
                        };
                        assert(newv.borrows[k] == oldv.borrows[korig]);
                        assert(newv.borrows[l] == oldv.borrows[lorig]);
                    }
                    assert forall|k: int| 0 <= k < newv.borrows.len() implies (
                    #[trigger] newv.borrows[k]).id != token.id by {
                        if k >= i as int {
                            assert(newv.borrows[k] == oldv.borrows[k + 1]);
                            assert(oldv.borrows[i as int].id == token.id);
                        }
                    }
                    assert(oldv.borrows[i as int].id == token.id);
                    assert(newv.borrows == oldv.borrows.remove(i as int));
                }
                return ;
            }
            i = i + 1;
        }
        proof {
            assert(self@ =~= old(self)@);
        }
    }

    /// Ends the most recently issued borrow and retires its identifier.
    /// The built-in systems use this for their scoped pass borrows, which
    /// never outlive the pass: acquire and release then cancel exactly,
    /// so a pass leaves the registry as it found it.
    pub(crate) fn release_latest(&mut self, token: QueryBorrow)
        requires
            old(self)@.wf(),
            old(self)@.borrows.len() >= 1,
            old(self)@.next_borrow >= 1,
            token.id == old(self)@.next_borrow - 1,
            old(self)@.borrows.last().id == token.id,
        ensures
            final(self)@.wf(),
            final(self)@ == (WorldV {
                borrows: old(self)@.borrows.drop_last(),
                next_borrow: (old(self)@.next_borrow - 1) as u64,
                ..old(self)@
            }),
    {
        let popped = self.borrows.pop();
        self.next_borrow = self.next_borrow - 1;
        proof {
            let oldv = old(self)@;
            let newv = self@;
            assert(newv.slots =~= oldv.slots);
            assert(newv.borrows =~= oldv.borrows.drop_last());
            assert(newv =~= WorldV {
                borrows: oldv.borrows.drop_last(),
                next_borrow: (oldv.next_borrow - 1) as u64,
                ..oldv
            });
            assert forall|x: int| #[trigger] newv.alive(x) implies newv.slot_wf(x) by {
                assert(oldv.alive(x));
                assert(oldv.slot_wf(x));
                assert forall|k: int| 0 <= k < newv.slot(x).children.len() implies {
                    let c = #[trigger] newv.slot(x).children[k] as int;
                    x < c && newv.alive(c) && newv.parent_of(c) == Some(x as usize)
                } by {
                    assert(oldv.alive(newv.slot(x).children[k] as int));
                }
                match newv.slot(x).parent {
                    Some(p) => {
                        assert(oldv.alive(p as int));
                    },
                    None => {},
                }
            }
            // every surviving borrow id lies strictly below the retired
            // one: ids are distinct and the retired id was the largest
            // issued
            assert forall|k: int| 0 <= k < newv.borrows.len() implies (
            #[trigger] newv.borrows[k]).id < newv.next_borrow by {
                assert(newv.borrows[k] == oldv.borrows[k]);
                assert(oldv.borrows[k].id != oldv.borrows[oldv.borrows.len() - 1].id);
                assert(oldv.borrows[k].id < oldv.next_borrow);
            }
            assert forall|k: int, l: int| 0 <= k < l < newv.borrows.len() implies (
            #[trigger] newv.borrows[k]).id != (#[trigger] newv.borrows[l]).id by {
                assert(newv.borrows[k] == oldv.borrows[k]);
                assert(newv.borrows[l] == oldv.borrows[l]);
            }
        }
    }

    /// A component write preserves the store invariant: only the cell
    /// under `key` on `e` changes, and its new tick is the pre-write tick.
    proof fn lemma_comp_write_wf(oldv: WorldV, newv: WorldV, e: int, key: ComponentKey)
        requires
            oldv.wf(),
            oldv.alive(e),
            newv.slots == oldv.slots.update(
                e,
                Some(
                    oldv.slot(e).with_comp(
                        key,
                        Some(
                            Cell {
                                value: newv.slot(e).comp(key)->Some_0.value,
                                tick: tick_next(oldv.tick),
                            },
                        ),
                    ),
                ),
            ),
            key_admits(key, newv.slot(e).comp(key)->Some_0.value),
            newv.tick == tick_next(oldv.tick),
            newv.borrows == oldv.borrows,
            newv.next_borrow == oldv.next_borrow,
        ensures
            newv.wf(),
    {
        assert forall|x: int| #[trigger] newv.alive(x) implies newv.slot_wf(x) by {
            assert(oldv.alive(x));
            assert(oldv.slot_wf(x));
            assert(newv.slot(x).parent == oldv.slot(x).parent);
            assert(newv.slot(x).children == oldv.slot(x).children);
            assert forall|i: int| 0 <= i < newv.slot(x).children.len() implies {
                let c = #[trigger] newv.slot(x).children[i] as int;
                x < c && newv.alive(c) && newv.parent_of(c) == Some(x as usize)
            } by {
                let c = newv.slot(x).children[i] as int;
                assert(oldv.alive(c));
                assert(newv.slot(c).parent == oldv.slot(c).parent);
            }
            match newv.slot(x).parent {
                Some(p) => {
                    assert(oldv.alive(p as int));
                    assert(newv.children_of(p as int) == oldv.children_of(p as int));
                },
                None => {},
            }
        }
    }

    /// Removing a component preserves the store invariant.
    proof fn lemma_comp_clear_wf(oldv: WorldV, newv: WorldV, e: int, key: ComponentKey)
        requires
            oldv.wf(),
            oldv.alive(e),
            newv.slots == oldv.slots.update(e, Some(oldv.slot(e).with_comp(key, None))),
            newv.tick == tick_next(oldv.tick),
            newv.borrows == oldv.borrows,
            newv.next_borrow == oldv.next_borrow,
        ensures
            newv.wf(),
    {
        assert forall|x: int| #[trigger] newv.alive(x) implies newv.slot_wf(x) by {
            assert(oldv.alive(x));
            assert(oldv.slot_wf(x));
            assert forall|i: int| 0 <= i < newv.slot(x).children.len() implies {
                let c = #[trigger] newv.slot(x).children[i] as int;
                x < c && newv.alive(c) && newv.parent_of(c) == Some(x as usize)
            } by {
                let c = newv.slot(x).children[i] as int;
                assert(oldv.alive(c));
                assert(newv.slot(c).parent == oldv.slot(c).parent);
            }
            match newv.slot(x).parent {
                Some(p) => {
                    assert(oldv.alive(p as int));
                    assert(newv.children_of(p as int) == oldv.children_of(p as int));
                },
                None => {},
            }
        }
    }
}

} // verus!
