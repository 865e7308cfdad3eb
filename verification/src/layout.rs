//! The layout engine: a recursive solver that, for every root of the
//! relation forest, walks the root's subtree and computes each node's
//! rectangle from the size limits its parent offers. A node resolves to
//! its declared size clamped into the offered band, or fills the band
//! when it declares none; its children are then offered the node's own
//! resolved size. Results are written back with a dedup-on-write
//! policy: a rectangle equal to the stored one is not written at all,
//! so downstream "changed" filters stay quiet for unchanged geometry.

use vstd::prelude::*;

use crate::math::LayoutLimits;
use crate::math::Rect;
use crate::math::Vec2;
use crate::query::some_conflict;
use crate::query::Query;
use crate::store::lemma_in_subtree_ge;
use crate::store::lemma_in_subtree_trans;
use crate::store::lemma_sibling_subtrees_disjoint;
use crate::store::lemma_subtree_through_child;
use crate::store::Cell;
use crate::store::ComponentKey;
use crate::store::ComponentValue;
use crate::store::Entity;
use crate::store::BorrowConflict;
use crate::store::SlotV;
use crate::store::World;
use crate::store::WorldV;

verus! {

/// The zero vector, for spec use.
pub open spec fn vec2_zero() -> Vec2 {
    Vec2 { x: 0, y: 0 }
}

/// The declared size of `e`: its size component, if it holds one.
pub open spec fn declared_size(w: WorldV, e: int) -> Option<Vec2> {
    match w.value_of(e, ComponentKey::Size) {
        Some(v) => match v {
            ComponentValue::Vec2(d) => Some(d),
            _ => None,
        },
        None => None,
    }
}

/// The rectangle component stored on `e`, if it holds one.
pub open spec fn stored_rect(w: WorldV, e: int) -> Option<Rect> {
    match w.value_of(e, ComponentKey::Rect) {
        Some(v) => match v {
            ComponentValue::Rect(r) => Some(r),
            _ => None,
        },
        None => None,
    }
}

/// The size entity `e` resolves to in one layout pass: a root keeps the
/// extent of its stored rectangle (set from outside, e.g. by a window
/// resize); any other node is offered its parent's resolved size and
/// takes its declared size clamped into that band, or the whole band
/// when it declares none. A parent's id is smaller than its child's, so
/// the recursion is on `e`.
pub open spec fn spec_resolved_size(w: WorldV, e: int) -> Vec2
    decreases e,
    when w.wf() && w.alive(e)
{
    match w.parent_of(e) {
        None => match stored_rect(w, e) {
            Some(r) => r.spec_size(),
            None => vec2_zero(),
        },
        Some(p) => {
            let avail = spec_resolved_size(w, p as int);
            match declared_size(w, e) {
                Some(d) => d.spec_vclamp(vec2_zero(), avail),
                None => avail,
            }
        },
    }
}

/// The rectangle one layout pass computes for a non-root entity.
pub open spec fn spec_rect_of(w: WorldV, e: int) -> Rect {
    Rect { min: vec2_zero(), max: spec_resolved_size(w, e) }
}

/// Resolved sizes are never negative, and never exceed what the parent
/// offers.
pub proof fn lemma_resolved_size_nonneg(w: WorldV, e: int)
    requires
        w.wf(),
        w.alive(e),
    ensures
        spec_resolved_size(w, e).x >= 0,
        spec_resolved_size(w, e).y >= 0,
    decreases e,
{
    match w.parent_of(e) {
        None => {
            match stored_rect(w, e) {
                Some(r) => {
                    assert(w.slot_wf(e));
                    assert(r.valid());
                },
                None => {},
            }
        },
        Some(p) => {
            assert(w.slot_wf(e));
            lemma_resolved_size_nonneg(w, p as int);
        },
    }
}

/// The store facts layout reads: aliveness, the relation edges, the
/// declared sizes, and the rectangles of roots.
pub open spec fn layout_inputs_agree(a: WorldV, b: WorldV) -> bool {
    &&& a.n() == b.n()
    &&& forall|x: int| #[trigger] a.alive(x) == b.alive(x)
    &&& forall|x: int| #[trigger] a.alive(x) ==> a.parent_of(x) == b.parent_of(x)
    &&& forall|x: int|
        #[trigger] a.alive(x) ==> a.comp(x, ComponentKey::Size) == b.comp(x, ComponentKey::Size)
    &&& forall|x: int|
        #[trigger] a.alive(x) && a.parent_of(x) is None ==> a.comp(x, ComponentKey::Rect) == b.comp(
            x,
            ComponentKey::Rect,
        )
}

/// Two stores that agree on layout's inputs resolve every entity to the
/// same size: one layout pass only writes rectangles of non-roots,
/// which layout never reads.
pub proof fn lemma_resolved_size_agree(a: WorldV, b: WorldV, e: int)
    requires
        a.wf(),
        b.wf(),
        layout_inputs_agree(a, b),
        a.alive(e),
    ensures
        spec_resolved_size(a, e) == spec_resolved_size(b, e),
    decreases e,
{
    assert(b.alive(e));
    assert(a.slot_wf(e));
    match a.parent_of(e) {
        None => {},
        Some(p) => {
            lemma_resolved_size_agree(a, b, p as int);
        },
    }
}

/// What one layout solve of the strict subtree of `e` does to the
/// store: nothing outside that subtree moves; inside it only the
/// rectangle component is replaced, by the solved rectangle, and a
/// write equal to the stored value leaves even the change tick alone.
pub open spec fn rel_solved_subtree(o: WorldV, f: WorldV, e: int) -> bool {
    &&& f.n() == o.n()
    &&& forall|x: int| #[trigger] f.alive(x) == o.alive(x)
    &&& f.borrows == o.borrows
    &&& f.next_borrow == o.next_borrow
    &&& o.tick <= f.tick
    &&& forall|x: int|
        0 <= x < o.n() && !(o.alive(x) && o.in_subtree(e, x) && x != e) ==> #[trigger] f.slots[x]
            == o.slots[x]
    &&& forall|x: int|
        o.alive(x) && #[trigger] o.in_subtree(e, x) && x != e ==> {
            &&& f.slot(x) == (SlotV { rect: f.slot(x).rect, ..o.slot(x) })
            &&& f.value_of(x, ComponentKey::Rect) == Some(
                ComponentValue::Rect(spec_rect_of(o, x)),
            )
            &&& (o.value_of(x, ComponentKey::Rect) == Some(
                ComponentValue::Rect(spec_rect_of(o, x)),
            ) ==> f.comp(x, ComponentKey::Rect) == o.comp(x, ComponentKey::Rect))
        }
    &&& (forall|x: int|
        o.alive(x) && #[trigger] o.in_subtree(e, x) && x != e ==> o.value_of(x, ComponentKey::Rect)
            == Some(ComponentValue::Rect(spec_rect_of(o, x)))) ==> f == o
}

/// Solves layout for every child subtree of `e`, whose own resolved
/// size is `size`: each child is offered the band from zero to `size`.
#[verifier::loop_isolation(false)]
#[verifier::rlimit(100)]
fn solve_children(w: &mut World, e: Entity, size: Vec2) -> (unit: ())
    requires
        old(w)@.wf(),
        old(w)@.alive(e.id as int),
        size == spec_resolved_size(old(w)@, e.id as int),
    ensures
        final(w)@.wf(),
        rel_solved_subtree(old(w)@, final(w)@, e.id as int),
    decreases old(w)@.n() - e.id, 0int,
{
    let ghost o = old(w)@;
    let kids = w.children(e);
    let ghost ch = o.children_of(e.id as int);
    let mut i: usize = 0;
    while i < kids.len()
        invariant
            o.wf(),
            o.alive(e.id as int),
            size == spec_resolved_size(o, e.id as int),
            kids@.len() == ch.len(),
            forall|k: int| 0 <= k < ch.len() ==> (#[trigger] kids@[k]).id == ch[k],
            i <= ch.len(),
            w@.wf(),
            w@.n() == o.n(),
            forall|x: int| #[trigger] w@.alive(x) == o.alive(x),
            w@.borrows == o.borrows,
            w@.next_borrow == o.next_borrow,
            o.tick <= w@.tick,
            forall|x: int|
                #[trigger] w@.alive(x) ==> w@.slot(x) == (SlotV {
                    rect: w@.slot(x).rect,
                    ..o.slot(x)
                }),
            forall|x: int|
                0 <= x < o.n() && !(o.alive(x) && (exists|k: int|
                    0 <= k < i && o.in_subtree(#[trigger] ch[k] as int, x))) ==> #[trigger] w@.slots[x]
                    == o.slots[x],
            forall|x: int|
                o.alive(x) && (exists|k: int|
                    0 <= k < i && #[trigger] o.in_subtree(#[trigger] ch[k] as int, x)) ==> {
                    &&& w@.value_of(x, ComponentKey::Rect) == Some(
                        ComponentValue::Rect(spec_rect_of(o, x)),
                    )
                    &&& (o.value_of(x, ComponentKey::Rect) == Some(
                        ComponentValue::Rect(spec_rect_of(o, x)),
                    ) ==> w@.comp(x, ComponentKey::Rect) == o.comp(x, ComponentKey::Rect))
                },
            (forall|x: int|
                o.alive(x) && #[trigger] o.in_subtree(e.id as int, x) && x != e.id as int
                    ==> o.value_of(x, ComponentKey::Rect) == Some(
                    ComponentValue::Rect(spec_rect_of(o, x)),
                )) ==> w@ == o,
        decreases ch.len() - i,
    {
        let c = kids[i];
        proof {
            assert(o.slot_wf(e.id as int));
            assert(c.id == ch[i as int]);
            assert(o.slot(e.id as int).children[i as int] == ch[i as int]);
            assert(o.alive(c.id as int));
            assert(o.parent_of(c.id as int) == Some(e.id));
            assert((e.id as int) < c.id as int);
            // The child slot is untouched so far: it lies in no processed
            // sibling subtree.
            assert(!(o.alive(c.id as int) && (exists|k: int|
                0 <= k < i && o.in_subtree(#[trigger] ch[k] as int, c.id as int)))) by {
                if exists|k: int| 0 <= k < i && o.in_subtree(#[trigger] ch[k] as int, c.id as int) {
                    let k = choose|k: int|
                        0 <= k < i && o.in_subtree(#[trigger] ch[k] as int, c.id as int);
                    assert(o.in_subtree(c.id as int, c.id as int));
                    assert(o.slot(e.id as int).children[k] == ch[k]);
                    assert(o.alive(ch[k] as int) && o.parent_of(ch[k] as int) == Some(e.id));
                    assert(ch[k] != ch[i as int]);
                    lemma_sibling_subtrees_disjoint(
                        o,
                        e.id,
                        c.id as int,
                        ch[k] as int,
                        c.id as int,
                    );
                }
            }
            // The current store agrees with the original on everything
            // layout reads.
            assert(layout_inputs_agree(o, w@)) by {
                assert forall|x: int| #[trigger] o.alive(x) implies o.parent_of(x) == w@.parent_of(
                    x,
                ) by {
                    assert(w@.slot(x) == (SlotV { rect: w@.slot(x).rect, ..o.slot(x) }));
                }
                assert forall|x: int| #[trigger] o.alive(x) implies o.comp(x, ComponentKey::Size)
                    == w@.comp(x, ComponentKey::Size) by {
                    assert(w@.slot(x) == (SlotV { rect: w@.slot(x).rect, ..o.slot(x) }));
                }
                assert forall|x: int|
                    #[trigger] o.alive(x) && o.parent_of(x) is None implies o.comp(
                    x,
                    ComponentKey::Rect,
                ) == w@.comp(x, ComponentKey::Rect) by {
                    if o.in_subtree(e.id as int, x) && x != e.id as int {
                        assert(o.slot_wf(x));
                        assert(false);
                    }
                    assert forall|k: int| 0 <= k < i implies !o.in_subtree(
                        #[trigger] ch[k] as int,
                        x,
                    ) by {
                        if o.in_subtree(ch[k] as int, x) {
                            assert(o.slot(e.id as int).children[k] == ch[k]);
                            assert(o.alive(ch[k] as int) && o.parent_of(ch[k] as int) == Some(
                                e.id,
                            ));
                            assert(x == ch[k] as int);
                            assert(false);
                        }
                    }
                    assert(w@.slots[x] == o.slots[x]);
                }
            }
            lemma_resolved_size_agree(o, w@, e.id as int);
        }
        let limits = LayoutLimits { min: Vec2::zero(), max: size };
        let ghost before = w@;
        let r = update_subtree(w, c, limits);
        let ghost written = w@;
        proof {
            // Transport the callee's results, stated over `before`, back
            // to the original store `o`.
            lemma_rel_transport(o, before, written, c.id as int);
        }
        let dedup = w.update_dedup(c, ComponentKey::Rect, ComponentValue::Rect(r));
        proof {
            lemma_resolved_size_nonneg(o, c.id as int);
            assert(dedup is Ok);
            lemma_step_invariants(o, before, written, w@, e.id as int, ch, i as int, size, r);
        }
        i = i + 1;
    }
    proof {
        // Every strict member of the subtree lies under exactly one
        // child, so the per-child facts cover the whole subtree.
        assert forall|x: int|
            o.alive(x) && #[trigger] o.in_subtree(e.id as int, x) && x != e.id as int implies {
            &&& w@.slot(x) == (SlotV { rect: w@.slot(x).rect, ..o.slot(x) })
            &&& w@.value_of(x, ComponentKey::Rect) == Some(ComponentValue::Rect(spec_rect_of(o, x)))
            &&& (o.value_of(x, ComponentKey::Rect) == Some(ComponentValue::Rect(spec_rect_of(o, x)))
                ==> w@.comp(x, ComponentKey::Rect) == o.comp(x, ComponentKey::Rect))
        } by {
            lemma_subtree_through_child(o, e.id as int, x);
            let k = choose|k: int|
                0 <= k < o.children_of(e.id as int).len() && o.in_subtree(
                    #[trigger] o.children_of(e.id as int)[k] as int,
                    x,
                );
            assert(o.in_subtree(ch[k] as int, x));
            assert(w@.alive(x));
        }
        assert forall|x: int|
            0 <= x < o.n() && !(o.alive(x) && o.in_subtree(e.id as int, x) && x != e.id as int)
            implies (#[trigger] w@.slots[x]) == o.slots[x] by {
            if o.alive(x) {
                assert forall|k: int| 0 <= k < ch.len() implies !o.in_subtree(
                    #[trigger] ch[k] as int,
                    x,
                ) by {
                    if o.in_subtree(ch[k] as int, x) {
                        assert(o.slot_wf(e.id as int));
                        assert(o.slot(e.id as int).children[k] == ch[k]);
                        assert(o.alive(ch[k] as int));
                        assert(o.parent_of(ch[k] as int) == Some(e.id));
                        assert(o.in_subtree(e.id as int, e.id as int));
                        assert(o.in_subtree(e.id as int, ch[k] as int));
                        lemma_in_subtree_trans(o, e.id as int, ch[k] as int, x);
                        lemma_in_subtree_ge(o, ch[k] as int, x);
                        assert(x != e.id as int);
                        assert(false);
                    }
                }
            }
        }
    }
    ()
}

/// Transported form of a child solve: the callee's relation, stated
/// over the store it saw, also holds over the original store of the
/// surrounding pass, because the two agree on everything layout reads.
proof fn lemma_rel_transport(o: WorldV, before: WorldV, written: WorldV, c: int)
    requires
        o.wf(),
        before.wf(),
        written.wf(),
        layout_inputs_agree(o, before),
        o.alive(c),
        rel_solved_subtree(before, written, c),
    ensures
        written.n() == o.n(),
        forall|x: int| #[trigger] written.alive(x) == o.alive(x),
        forall|x: int|
            o.alive(x) && #[trigger] o.in_subtree(c, x) && x != c ==> written.value_of(
                x,
                ComponentKey::Rect,
            ) == Some(ComponentValue::Rect(spec_rect_of(o, x))),
{
    assert forall|x: int|
        o.alive(x) && #[trigger] o.in_subtree(c, x) && x != c implies written.value_of(
        x,
        ComponentKey::Rect,
    ) == Some(ComponentValue::Rect(spec_rect_of(o, x))) by {
        lemma_in_subtree_agree_layout(o, before, c, x);
        assert(before.in_subtree(c, x));
        lemma_resolved_size_agree(o, before, x);
    }
}

/// Subtree membership is the same in two stores that agree on layout's
/// inputs (they share every parent edge).
pub proof fn lemma_in_subtree_agree_layout(a: WorldV, b: WorldV, e: int, x: int)
    requires
        a.wf(),
        b.wf(),
        layout_inputs_agree(a, b),
        a.alive(x),
    ensures
        a.in_subtree(e, x) == b.in_subtree(e, x),
    decreases x,
{
    if x != e {
        match a.parent_of(x) {
            Some(p) => {
                assert(a.slot_wf(x));
                lemma_in_subtree_agree_layout(a, b, e, p as int);
            },
            None => {},
        }
    }
}

/// One loop step of `solve_children` keeps its invariants: the child's
/// subtree now carries the solved rectangles, everything else is where
/// the previous step left it.
#[verifier::rlimit(100)]
proof fn lemma_step_invariants(
    o: WorldV,
    before: WorldV,
    written: WorldV,
    cur: WorldV,
    e: int,
    ch: Seq<usize>,
    i: int,
    size: Vec2,
    r: Rect,
)
    requires
        o.wf(),
        before.wf(),
        written.wf(),
        cur.wf(),
        o.alive(e),
        0 <= i < ch.len(),
        ch == o.children_of(e),
        layout_inputs_agree(o, before),
        rel_solved_subtree(before, written, ch[i] as int),
        r == spec_rect_of(before, ch[i] as int),
        r == spec_rect_of(o, ch[i] as int),
        // the dedup write of the child's own rectangle
        written.alive(ch[i] as int),
        written.value_of(ch[i] as int, ComponentKey::Rect) == Some(ComponentValue::Rect(r)) ==> cur
            == written,
        written.value_of(ch[i] as int, ComponentKey::Rect) != Some(ComponentValue::Rect(r)) ==> cur
            == written.set_result(ch[i] as int, ComponentKey::Rect, ComponentValue::Rect(r)),
        // the surrounding loop's invariants for `before`
        before.n() == o.n(),
        forall|x: int| #[trigger] before.alive(x) == o.alive(x),
        before.borrows == o.borrows,
        before.next_borrow == o.next_borrow,
        o.tick <= before.tick,
        forall|x: int|
            #[trigger] before.alive(x) ==> before.slot(x) == (SlotV {
                rect: before.slot(x).rect,
                ..o.slot(x)
            }),
        forall|x: int|
            0 <= x < o.n() && !(o.alive(x) && (exists|k: int|
                0 <= k < i && o.in_subtree(#[trigger] ch[k] as int, x))) ==> #[trigger] before.slots[x]
                == o.slots[x],
        forall|x: int|
            o.alive(x) && (exists|k: int|
                0 <= k < i && #[trigger] o.in_subtree(#[trigger] ch[k] as int, x)) ==> {
                &&& before.value_of(x, ComponentKey::Rect) == Some(
                    ComponentValue::Rect(spec_rect_of(o, x)),
                )
                &&& (o.value_of(x, ComponentKey::Rect) == Some(
                    ComponentValue::Rect(spec_rect_of(o, x)),
                ) ==> before.comp(x, ComponentKey::Rect) == o.comp(x, ComponentKey::Rect))
            },
        (forall|x: int|
            o.alive(x) && #[trigger] o.in_subtree(e, x) && x != e ==> o.value_of(
                x,
                ComponentKey::Rect,
            ) == Some(ComponentValue::Rect(spec_rect_of(o, x)))) ==> before == o,
    ensures
        cur.n() == o.n(),
        forall|x: int| #[trigger] cur.alive(x) == o.alive(x),
        cur.borrows == o.borrows,
        cur.next_borrow == o.next_borrow,
        o.tick <= cur.tick,
        forall|x: int|
            #[trigger] cur.alive(x) ==> cur.slot(x) == (SlotV {
                rect: cur.slot(x).rect,
                ..o.slot(x)
            }),
        forall|x: int|
            0 <= x < o.n() && !(o.alive(x) && (exists|k: int|
                0 <= k < i + 1 && o.in_subtree(#[trigger] ch[k] as int, x))) ==> #[trigger] cur.slots[x]
                == o.slots[x],
        forall|x: int|
            o.alive(x) && (exists|k: int|
                0 <= k < i + 1 && #[trigger] o.in_subtree(#[trigger] ch[k] as int, x)) ==> {
                &&& cur.value_of(x, ComponentKey::Rect) == Some(
                    ComponentValue::Rect(spec_rect_of(o, x)),
                )
                &&& (o.value_of(x, ComponentKey::Rect) == Some(
                    ComponentValue::Rect(spec_rect_of(o, x)),
                ) ==> cur.comp(x, ComponentKey::Rect) == o.comp(x, ComponentKey::Rect))
            },
        (forall|x: int|
            o.alive(x) && #[trigger] o.in_subtree(e, x) && x != e ==> o.value_of(
                x,
                ComponentKey::Rect,
            ) == Some(ComponentValue::Rect(spec_rect_of(o, x)))) ==> cur == o,
{
    let c = ch[i] as int;
    assert(o.slot_wf(e));
    assert(o.slot(e).children[i] == ch[i]);
    assert(o.alive(c));
    assert(o.parent_of(c) == Some(e as usize));
    assert(o.in_subtree(e, e));
    assert(o.in_subtree(e, c));
    lemma_in_subtree_ge(o, e, c);
    // membership of the child's subtree is the same question in o and
    // in before
    assert forall|x: int| o.alive(x) implies #[trigger] o.in_subtree(c, x) == before.in_subtree(
        c,
        x,
    ) by {
        lemma_in_subtree_agree_layout(o, before, c, x);
    }
    // aliveness and shape
    assert forall|x: int| #[trigger] cur.alive(x) == o.alive(x) by {
        assert(written.alive(x) == before.alive(x));
    }
    assert forall|x: int| #[trigger] cur.alive(x) implies cur.slot(x) == (SlotV {
        rect: cur.slot(x).rect,
        ..o.slot(x)
    }) by {
        assert(written.alive(x));
        assert(before.alive(x));
        if o.in_subtree(c, x) && x != c {
            assert(written.slot(x) == (SlotV { rect: written.slot(x).rect, ..before.slot(x) }));
        } else {
            assert(written.slots[x] == before.slots[x]);
        }
        if cur != written {
            if x == c {
            } else {
                assert(cur.slot(x) == written.slot(x));
            }
        }
    }
    // frame: everything outside the first i+1 child subtrees is
    // untouched
    assert forall|x: int|
        0 <= x < o.n() && !(o.alive(x) && (exists|k: int|
            0 <= k < i + 1 && o.in_subtree(#[trigger] ch[k] as int, x))) implies (
    #[trigger] cur.slots[x]) == o.slots[x] by {
        if o.alive(x) {
            assert(!o.in_subtree(c, x));
            assert(before.slots[x] == o.slots[x]);
            assert(!before.in_subtree(c, x));
            assert(written.slots[x] == before.slots[x]);
            assert(x != c) by {
                assert(o.in_subtree(c, c));
            }
            if cur != written {
                assert(cur.slots[x] == written.slots[x]);
            }
        } else {
            assert(before.slots[x] == o.slots[x]);
            assert(!(before.alive(x) && before.in_subtree(c, x) && x != c));
            assert(written.slots[x] == before.slots[x]);
            if cur != written {
                assert(cur.slots[x] == written.slots[x]);
            }
        }
    }
    // results: the first i+1 child subtrees carry the solved rectangles
    assert forall|x: int|
        o.alive(x) && (exists|k: int|
            0 <= k < i + 1 && #[trigger] o.in_subtree(#[trigger] ch[k] as int, x)) implies {
        &&& cur.value_of(x, ComponentKey::Rect) == Some(ComponentValue::Rect(spec_rect_of(o, x)))
        &&& (o.value_of(x, ComponentKey::Rect) == Some(ComponentValue::Rect(spec_rect_of(o, x)))
            ==> cur.comp(x, ComponentKey::Rect) == o.comp(x, ComponentKey::Rect))
    } by {
        let k = choose|k: int| 0 <= k < i + 1 && o.in_subtree(#[trigger] ch[k] as int, x);
        if k < i {
            // solved by an earlier sibling; this step did not touch it
            assert(before.value_of(x, ComponentKey::Rect) == Some(
                ComponentValue::Rect(spec_rect_of(o, x)),
            ));
            assert(!o.in_subtree(c, x)) by {
                if o.in_subtree(c, x) {
                    assert(o.slot(e).children[k] == ch[k]);
                    assert(o.alive(ch[k] as int));
                    assert(o.parent_of(ch[k] as int) == Some(e as usize));
                    assert(o.parent_of(c) == Some(e as usize));
                    assert(ch[k] != ch[i]);
                    lemma_sibling_subtrees_disjoint(o, e as usize, ch[k] as int, c, x);
                }
            }
            assert(!before.in_subtree(c, x));
            assert(written.slots[x] == before.slots[x]);
            assert(x != c) by {
                assert(o.in_subtree(c, c));
            }
            if cur != written {
                assert(cur.slots[x] == written.slots[x]);
            }
        } else {
            // x lies under the child solved this step
            assert(o.in_subtree(c, x));
            if x != c {
                assert(before.in_subtree(c, x));
                assert(written.value_of(x, ComponentKey::Rect) == Some(
                    ComponentValue::Rect(spec_rect_of(before, x)),
                ));
                lemma_resolved_size_agree(o, before, x);
                assert(written.value_of(x, ComponentKey::Rect) == Some(
                    ComponentValue::Rect(spec_rect_of(o, x)),
                ));
                if cur != written {
                    assert(cur.slots[x] == written.slots[x]);
                }
                // the tick-preserving case
                if o.value_of(x, ComponentKey::Rect) == Some(
                    ComponentValue::Rect(spec_rect_of(o, x)),
                ) {
                    assert(before.comp(x, ComponentKey::Rect) == o.comp(x, ComponentKey::Rect))
                        by {
                        if exists|k2: int| 0 <= k2 < i && o.in_subtree(#[trigger] ch[k2] as int, x) {
                        } else {
                            assert(before.slots[x] == o.slots[x]);
                        }
                    }
                    assert(written.comp(x, ComponentKey::Rect) == before.comp(
                        x,
                        ComponentKey::Rect,
                    ));
                }
            } else {
                // x is the child itself: its rectangle came from the
                // dedup write just made
                assert(!(before.alive(c) && before.in_subtree(c, c) && c != c));
                assert(written.slots[c] == before.slots[c]);
                assert(before.slots[c] == o.slots[c]) by {
                    if exists|k2: int| 0 <= k2 < i && o.in_subtree(#[trigger] ch[k2] as int, c) {
                        let k2 = choose|k2: int|
                            0 <= k2 < i && o.in_subtree(#[trigger] ch[k2] as int, c);
                        assert(o.in_subtree(c, c));
                        assert(o.slot(e).children[k2] == ch[k2]);
                        assert(o.alive(ch[k2] as int));
                        assert(o.parent_of(ch[k2] as int) == Some(e as usize));
                        assert(ch[k2] != ch[i]);
                        lemma_sibling_subtrees_disjoint(o, e as usize, c, ch[k2] as int, c);
                        assert(false);
                    }
                }
                if written.value_of(c, ComponentKey::Rect) == Some(ComponentValue::Rect(r)) {
                    assert(cur == written);
                    assert(cur.value_of(c, ComponentKey::Rect) == Some(ComponentValue::Rect(r)));
                } else {
                    assert(cur == written.set_result(c, ComponentKey::Rect, ComponentValue::Rect(r)));
                    assert(cur.slots[c] == written.slots.update(
                        c,
                        Some(
                            written.slot(c).with_comp(
                                ComponentKey::Rect,
                                Some(
                                    Cell {
                                        value: ComponentValue::Rect(r),
                                        tick: crate::store::tick_next(written.tick),
                                    },
                                ),
                            ),
                        ),
                    )[c]);
                    assert(cur.value_of(c, ComponentKey::Rect) == Some(ComponentValue::Rect(r)));
                }
            }
        }
    }
    // ticks only move forward
    assert(o.tick <= cur.tick) by {
        if cur != written {
        }
    }
    // the all-unchanged case: nothing at all was written
    if (forall|x: int|
        o.alive(x) && #[trigger] o.in_subtree(e, x) && x != e ==> o.value_of(
            x,
            ComponentKey::Rect,
        ) == Some(ComponentValue::Rect(spec_rect_of(o, x)))) {
        assert(before == o);
        assert forall|x: int|
            before.alive(x) && #[trigger] before.in_subtree(c, x) && x != c implies before.value_of(
            x,
            ComponentKey::Rect,
        ) == Some(ComponentValue::Rect(spec_rect_of(before, x))) by {
            assert(o.in_subtree(c, x));
            lemma_in_subtree_trans(o, e, c, x);
            assert(x != e) by {
                lemma_in_subtree_ge(o, c, x);
            }
        }
        assert(written == before);
        assert(o.value_of(c, ComponentKey::Rect) == Some(ComponentValue::Rect(spec_rect_of(o, c))))
            by {
            assert(o.in_subtree(e, c) && c != e);
        }
        assert(written.value_of(c, ComponentKey::Rect) == Some(ComponentValue::Rect(r)));
        assert(cur == written);
        assert(cur == o);
    }
}

/// Solves the subtree rooted at the non-root entity `e`, given the
/// limits derived from its parent's resolved size, writes the solved
/// rectangles of all strict descendants of `e` (dedup-on-write), and
/// returns the rectangle of `e` itself, which honors the given limits.
/// The caller writes it.
pub fn update_subtree(w: &mut World, e: Entity, limits: LayoutLimits) -> (r: Rect)
    requires
        old(w)@.wf(),
        old(w)@.alive(e.id as int),
        match old(w)@.parent_of(e.id as int) {
            Some(p) => limits.min == vec2_zero() && limits.max == spec_resolved_size(
                old(w)@,
                p as int,
            ),
            None => false,
        },
    ensures
        final(w)@.wf(),
        rel_solved_subtree(old(w)@, final(w)@, e.id as int),
        r == spec_rect_of(old(w)@, e.id as int),
        r.valid(),
        limits.valid() ==> limits.min.le(r.spec_size()) && r.spec_size().le(limits.max),
    decreases old(w)@.n() - e.id, 1int,
{
    let avail = limits.max;
    let desired: Option<Vec2> = match w.get(e, ComponentKey::Size) {
        Some(v) => match v {
            ComponentValue::Vec2(d) => Some(d),
            _ => None,
        },
        None => None,
    };
    let size = match desired {
        Some(d) => d.vclamp(Vec2::zero(), avail),
        None => avail,
    };
    proof {
        assert(size == spec_resolved_size(old(w)@, e.id as int));
    }
    let own = Rect::new(Vec2::zero(), size);
    solve_children(w, e, size);
    proof {
        lemma_resolved_size_nonneg(old(w)@, e.id as int);
        match old(w)@.parent_of(e.id as int) {
            Some(p) => {
                assert(old(w)@.slot_wf(e.id as int));
                lemma_resolved_size_nonneg(old(w)@, p as int);
            },
            None => {},
        }
    }
    own
}

/// The root of the tree holding `x`: the end of its parent chain.
pub open spec fn spec_root_of(w: WorldV, x: int) -> int
    decreases x,
    when w.wf() && w.alive(x)
{
    match w.parent_of(x) {
        None => x,
        Some(p) => spec_root_of(w, p as int),
    }
}

/// The root of an entity is a live root whose subtree holds it.
pub proof fn lemma_root_of(w: WorldV, x: int)
    requires
        w.wf(),
        w.alive(x),
    ensures
        w.alive(spec_root_of(w, x)),
        w.parent_of(spec_root_of(w, x)) is None,
        w.in_subtree(spec_root_of(w, x), x),
        spec_root_of(w, x) <= x,
    decreases x,
{
    assert(w.slot_wf(x));
    match w.parent_of(x) {
        None => {},
        Some(p) => {
            lemma_root_of(w, p as int);
        },
    }
}

/// A root whose subtree holds `x` is the root of `x`.
pub proof fn lemma_root_unique(w: WorldV, r: int, x: int)
    requires
        w.wf(),
        w.alive(x),
        w.in_subtree(r, x),
        w.alive(r),
        w.parent_of(r) is None,
    ensures
        spec_root_of(w, x) == r,
    decreases x,
{
    assert(w.slot_wf(x));
    if x == r {
    } else {
        match w.parent_of(x) {
            Some(p) => {
                lemma_root_unique(w, r, p as int);
            },
            None => {},
        }
    }
}

/// What one whole layout pass does to the store: every non-root carries
/// the rectangle the pass computes for it, everything else (including
/// every root's rectangle) is untouched, an unchanged rectangle keeps
/// its change tick, and a pass whose every computed rectangle equals
/// the stored one changes nothing at all.
pub open spec fn rel_layout(o: WorldV, f: WorldV) -> bool {
    &&& f.n() == o.n()
    &&& forall|x: int| #[trigger] f.alive(x) == o.alive(x)
    &&& f.borrows == o.borrows
    &&& f.next_borrow == o.next_borrow
    &&& o.tick <= f.tick
    &&& forall|x: int|
        #[trigger] f.alive(x) ==> f.slot(x) == (SlotV { rect: f.slot(x).rect, ..o.slot(x) })
    &&& forall|x: int|
        o.alive(x) && #[trigger] o.parent_of(x) is None ==> f.slots[x] == o.slots[x]
    &&& forall|x: int|
        o.alive(x) && #[trigger] o.parent_of(x) is Some ==> {
            &&& f.value_of(x, ComponentKey::Rect) == Some(
                ComponentValue::Rect(spec_rect_of(o, x)),
            )
            &&& (o.value_of(x, ComponentKey::Rect) == Some(
                ComponentValue::Rect(spec_rect_of(o, x)),
            ) ==> f.comp(x, ComponentKey::Rect) == o.comp(x, ComponentKey::Rect))
        }
    &&& (forall|x: int|
        o.alive(x) && #[trigger] o.parent_of(x) is Some ==> o.value_of(x, ComponentKey::Rect)
            == Some(ComponentValue::Rect(spec_rect_of(o, x)))) ==> f == o
}

/// One layout pass over an already-acquired borrow: for each root of
/// the relation forest, solves the root's subtree against the extent of
/// the root's own stored rectangle. Every non-root ends up carrying the
/// rectangle the pass computes for it, with dedup-on-write.
#[verifier::loop_isolation(false)]
#[verifier::rlimit(100)]
#[verifier::spinoff_prover]
fn layout_pass(w: &mut World)
    requires
        old(w)@.wf(),
    ensures
        final(w)@.wf(),
        rel_layout(old(w)@, final(w)@),
{
    let ghost o = old(w)@;
    let rs = w.roots();
    let mut j: usize = 0;
    while j < rs.len()
        invariant
            w@.wf(),
            w@.n() == o.n(),
            forall|x: int| #[trigger] w@.alive(x) == o.alive(x),
            w@.borrows == o.borrows,
            w@.next_borrow == o.next_borrow,
            o.tick <= w@.tick,
            j <= rs@.len(),
            forall|x: int|
                #[trigger] w@.alive(x) ==> w@.slot(x) == (SlotV {
                    rect: w@.slot(x).rect,
                    ..o.slot(x)
                }),
            forall|x: int|
                0 <= x < o.n() && !(o.alive(x) && o.parent_of(x) is Some && (exists|k: int|
                    0 <= k < j && (#[trigger] rs@[k]).id as int == spec_root_of(o, x)))
                    ==> #[trigger] w@.slots[x] == o.slots[x],
            forall|x: int|
                o.alive(x) && #[trigger] o.parent_of(x) is Some && (exists|k: int|
                    0 <= k < j && (#[trigger] rs@[k]).id as int == spec_root_of(o, x)) ==> {
                    &&& w@.value_of(x, ComponentKey::Rect) == Some(
                        ComponentValue::Rect(spec_rect_of(o, x)),
                    )
                    &&& (o.value_of(x, ComponentKey::Rect) == Some(
                        ComponentValue::Rect(spec_rect_of(o, x)),
                    ) ==> w@.comp(x, ComponentKey::Rect) == o.comp(x, ComponentKey::Rect))
                },
            (forall|x: int|
                o.alive(x) && #[trigger] o.parent_of(x) is Some ==> o.value_of(
                    x,
                    ComponentKey::Rect,
                ) == Some(ComponentValue::Rect(spec_rect_of(o, x)))) ==> w@ == o,
        decreases rs@.len() - j,
    {
        let r = rs[j];
        proof {
            assert(o.alive(r.id as int) && o.parent_of(r.id as int) is None);
        }
        let size = match w.get(r, ComponentKey::Rect) {
            Some(v) => match v {
                ComponentValue::Rect(rect) => rect.size(),
                _ => Vec2::zero(),
            },
            None => Vec2::zero(),
        };
        let ghost before = w@;
        proof {
            // the current store agrees with the original on layout inputs
            assert(layout_inputs_agree(o, before)) by {
                assert forall|x: int| #[trigger] o.alive(x) implies o.parent_of(x)
                    == before.parent_of(x) by {
                    assert(before.slot(x) == (SlotV { rect: before.slot(x).rect, ..o.slot(x) }));
                }
                assert forall|x: int| #[trigger] o.alive(x) implies o.comp(x, ComponentKey::Size)
                    == before.comp(x, ComponentKey::Size) by {
                    assert(before.slot(x) == (SlotV { rect: before.slot(x).rect, ..o.slot(x) }));
                }
                assert forall|x: int|
                    #[trigger] o.alive(x) && o.parent_of(x) is None implies o.comp(
                    x,
                    ComponentKey::Rect,
                ) == before.comp(x, ComponentKey::Rect) by {
                    lemma_root_unique(o, x, x);
                    assert(before.slots[x] == o.slots[x]);
                }
            }
            assert(size == spec_resolved_size(before, r.id as int)) by {
                lemma_root_unique(o, r.id as int, r.id as int);
                assert(before.slots[r.id as int] == o.slots[r.id as int]);
                assert(before.parent_of(r.id as int) is None);
            }
        }
        solve_children(w, r, size);
        proof {
            let written = w@;
            assert forall|x: int| o.alive(x) implies #[trigger] o.in_subtree(r.id as int, x)
                == before.in_subtree(r.id as int, x) by {
                lemma_in_subtree_agree_layout(o, before, r.id as int, x);
            }
            // membership in the solved subtree is exactly "x is a
            // non-root whose root is r"
            assert forall|x: int| o.alive(x) implies (o.in_subtree(r.id as int, x) && x != r.id as int)
                == (o.parent_of(x) is Some && spec_root_of(o, x) == r.id as int) by {
                if o.in_subtree(r.id as int, x) && x != r.id as int {
                    lemma_root_unique(o, r.id as int, x);
                    if o.parent_of(x) is None {
                        lemma_root_unique(o, x, x);
                    }
                }
                if o.parent_of(x) is Some && spec_root_of(o, x) == r.id as int {
                    lemma_root_of(o, x);
                    assert(x != r.id as int);
                }
            }
            // carry the accumulated facts one root further
            assert forall|x: int|
                o.alive(x) && #[trigger] o.parent_of(x) is Some && (exists|k: int|
                    0 <= k < j + 1 && (#[trigger] rs@[k]).id as int == spec_root_of(o, x)) implies {
                &&& written.value_of(x, ComponentKey::Rect) == Some(
                    ComponentValue::Rect(spec_rect_of(o, x)),
                )
                &&& (o.value_of(x, ComponentKey::Rect) == Some(
                    ComponentValue::Rect(spec_rect_of(o, x)),
                ) ==> written.comp(x, ComponentKey::Rect) == o.comp(x, ComponentKey::Rect))
            } by {
                let k = choose|k: int|
                    0 <= k < j + 1 && (#[trigger] rs@[k]).id as int == spec_root_of(o, x);
                if k < j {
                    // solved under an earlier root: this step left it alone
                    assert(!(o.in_subtree(r.id as int, x) && x != r.id as int)) by {
                        if o.in_subtree(r.id as int, x) && x != r.id as int {
                            assert(spec_root_of(o, x) == r.id as int);
                            assert(rs@[k].id as int == rs@[j as int].id as int);
                        }
                    }
                    assert(x != r.id as int) by {
                        if x == r.id as int {
                            lemma_root_unique(o, r.id as int, x);
                        }
                    }
                    assert(written.slots[x] == before.slots[x]);
                } else {
                    // solved this step
                    assert(o.in_subtree(r.id as int, x) && x != r.id as int);
                    assert(before.in_subtree(r.id as int, x));
                    assert(written.value_of(x, ComponentKey::Rect) == Some(
                        ComponentValue::Rect(spec_rect_of(before, x)),
                    ));
                    lemma_resolved_size_agree(o, before, x);
                    if o.value_of(x, ComponentKey::Rect) == Some(
                        ComponentValue::Rect(spec_rect_of(o, x)),
                    ) {
                        assert(before.slots[x] == o.slots[x]) by {
                            assert(!(exists|k2: int|
                                0 <= k2 < j && (#[trigger] rs@[k2]).id as int == spec_root_of(
                                    o,
                                    x,
                                ))) by {
                                if exists|k2: int|
                                    0 <= k2 < j && (#[trigger] rs@[k2]).id as int == spec_root_of(
                                        o,
                                        x,
                                    ) {
                                    let k2 = choose|k2: int|
                                        0 <= k2 < j && (#[trigger] rs@[k2]).id as int
                                            == spec_root_of(o, x);
                                    assert(rs@[k2].id as int == rs@[j as int].id as int);
                                }
                            }
                        }
                        assert(written.comp(x, ComponentKey::Rect) == before.comp(
                            x,
                            ComponentKey::Rect,
                        ));
                    }
                }
            }
            // frame for everything else
            assert forall|x: int|
                0 <= x < o.n() && !(o.alive(x) && o.parent_of(x) is Some && (exists|k: int|
                    0 <= k < j + 1 && (#[trigger] rs@[k]).id as int == spec_root_of(o, x)))
                implies #[trigger] written.slots[x] == o.slots[x] by {
                if o.alive(x) {
                    assert(!(o.in_subtree(r.id as int, x) && x != r.id as int)) by {
                        if o.in_subtree(r.id as int, x) && x != r.id as int {
                            assert(o.parent_of(x) is Some && spec_root_of(o, x) == r.id as int);
                            assert(rs@[j as int].id as int == spec_root_of(o, x));
                        }
                    }
                    assert(x != r.id as int ==> written.slots[x] == before.slots[x]);
                    if x == r.id as int {
                        assert(!(before.alive(x) && before.in_subtree(r.id as int, x) && x
                            != r.id as int));
                        assert(written.slots[x] == before.slots[x]);
                    }
                } else {
                    assert(written.slots[x] == before.slots[x]);
                }
            }
            // the all-unchanged case
            if forall|x: int|
                o.alive(x) && #[trigger] o.parent_of(x) is Some ==> o.value_of(
                    x,
                    ComponentKey::Rect,
                ) == Some(ComponentValue::Rect(spec_rect_of(o, x))) {
                assert(before == o);
                assert forall|x: int|
                    before.alive(x) && #[trigger] before.in_subtree(r.id as int, x) && x
                        != r.id as int implies before.value_of(x, ComponentKey::Rect) == Some(
                    ComponentValue::Rect(spec_rect_of(before, x)),
                ) by {
                    assert(o.in_subtree(r.id as int, x) && x != r.id as int);
                    assert(o.parent_of(x) is Some);
                }
                assert(written == before);
            }
        }
        j = j + 1;
    }
    proof {
        assert forall|x: int|
            o.alive(x) && #[trigger] o.parent_of(x) is Some implies {
            &&& w@.value_of(x, ComponentKey::Rect) == Some(
                ComponentValue::Rect(spec_rect_of(o, x)),
            )
            &&& (o.value_of(x, ComponentKey::Rect) == Some(ComponentValue::Rect(spec_rect_of(o, x)))
                ==> w@.comp(x, ComponentKey::Rect) == o.comp(x, ComponentKey::Rect))
        } by {
            lemma_root_of(o, x);
        }
        assert forall|x: int|
            o.alive(x) && #[trigger] o.parent_of(x) is None implies w@.slots[x] == o.slots[x] by {
            lemma_root_unique(o, x, x);
        }
    }
}

/// The component set the layout pass reads: declared sizes (and the
/// rectangles it writes, including the root rectangles it reads).
pub open spec fn layout_reads() -> Seq<ComponentKey> {
    seq![ComponentKey::Size]
}

/// The component set the layout pass writes: rectangles.
pub open spec fn layout_writes() -> Seq<ComponentKey> {
    seq![ComponentKey::Rect]
}

/// The layout system: acquires its declared borrow — sizes for reading,
/// rectangles for writing — through the registry, runs the pass, and
/// releases the borrow. If a live borrow aliases that access, it fails
/// fast with a borrow conflict and the store is untouched.
#[verifier::rlimit(100)]
pub fn layout_system(w: &mut World) -> (r: Result<(), BorrowConflict>)
    requires
        old(w)@.wf(),
    ensures
        final(w)@.wf(),
        r is Err <==> (some_conflict(old(w)@, layout_reads(), layout_writes()) || old(
            w,
        )@.next_borrow == u64::MAX),
        r is Err ==> final(w)@ == old(w)@,
        r is Ok ==> rel_layout(old(w)@, final(w)@),
{
    let ghost o = old(w)@;
    let mut reads: Vec<ComponentKey> = Vec::new();
    reads.push(ComponentKey::Size);
    let mut writes: Vec<ComponentKey> = Vec::new();
    writes.push(ComponentKey::Rect);
    let q = Query::new(reads, writes);
    proof {
        assert(q.reads@ =~= layout_reads());
        assert(q.writes@ =~= layout_writes());
    }
    let token = match w.borrow_query(&q) {
        Ok(token) => token,
        Err(conflict) => {
            return Err(conflict);
        },
    };
    let ghost w1 = w@;
    layout_pass(w);
    let ghost w2 = w@;
    proof {
        assert(w2.borrows == w1.borrows);
        assert(w1.borrows.last().id == token.id);
        assert(w2.next_borrow == w1.next_borrow);
    }
    w.release_latest(token);
    proof {
        let f = w@;
        assert(f.borrows =~= o.borrows);
        assert(f.next_borrow == o.next_borrow);
        assert(w1.slots == o.slots);
        assert(f.slots == w2.slots);
        // the registry entry is invisible to the pass: both stores hold
        // the same slots, so every resolved size agrees
        assert(layout_inputs_agree(o, w1)) by {
            assert forall|x: int| #[trigger] o.alive(x) == w1.alive(x) by {}
            assert forall|x: int|
                #[trigger] o.alive(x) implies o.parent_of(x) == w1.parent_of(x) && o.comp(
                x,
                ComponentKey::Size,
            ) == w1.comp(x, ComponentKey::Size) && o.comp(x, ComponentKey::Rect) == w1.comp(
                x,
                ComponentKey::Rect,
            ) by {
                assert(o.slot(x) == w1.slot(x));
            }
        }
        assert(rel_layout(o, f)) by {
            assert forall|x: int| #[trigger] f.alive(x) == o.alive(x) by {
                assert(w2.alive(x) == w1.alive(x));
            }
            assert forall|x: int|
                o.alive(x) && #[trigger] o.parent_of(x) is None implies f.slots[x] == o.slots[x] by {
                assert(w1.alive(x) && w1.parent_of(x) is None);
                assert(w2.slots[x] == w1.slots[x]);
            }
            assert forall|x: int| o.alive(x) && #[trigger] o.parent_of(x) is Some implies {
                &&& f.value_of(x, ComponentKey::Rect) == Some(
                    ComponentValue::Rect(spec_rect_of(o, x)),
                )
                &&& (o.value_of(x, ComponentKey::Rect) == Some(
                    ComponentValue::Rect(spec_rect_of(o, x)),
                ) ==> f.comp(x, ComponentKey::Rect) == o.comp(x, ComponentKey::Rect))
            } by {
                assert(w1.alive(x) && w1.parent_of(x) is Some);
                lemma_resolved_size_agree(o, w1, x);
                assert(w2.value_of(x, ComponentKey::Rect) == Some(
                    ComponentValue::Rect(spec_rect_of(w1, x)),
                ));
                if o.value_of(x, ComponentKey::Rect) == Some(
                    ComponentValue::Rect(spec_rect_of(o, x)),
                ) {
                    assert(w1.value_of(x, ComponentKey::Rect) == Some(
                        ComponentValue::Rect(spec_rect_of(w1, x)),
                    ));
                    assert(w2.comp(x, ComponentKey::Rect) == w1.comp(x, ComponentKey::Rect));
                }
            }
            if forall|x: int|
                o.alive(x) && #[trigger] o.parent_of(x) is Some ==> o.value_of(
                    x,
                    ComponentKey::Rect,
                ) == Some(ComponentValue::Rect(spec_rect_of(o, x))) {
                assert forall|x: int|
                    w1.alive(x) && #[trigger] w1.parent_of(x) is Some implies w1.value_of(
                    x,
                    ComponentKey::Rect,
                ) == Some(ComponentValue::Rect(spec_rect_of(w1, x))) by {
                    assert(o.alive(x) && o.parent_of(x) is Some);
                    lemma_resolved_size_agree(o, w1, x);
                }
                assert(w2 == w1);
                assert(f =~= o);
            }
        }
    }
    Ok(())
}

/// Law: one layout pass is idempotent. A second pass over an unchanged
/// store recomputes the same rectangles, the dedup-on-write policy then
/// writes nothing, and the store after the second pass is identical to
/// the store after the first, change ticks included.
pub proof fn lemma_layout_idempotent(o: WorldV, f1: WorldV, f2: WorldV)
    requires
        o.wf(),
        f1.wf(),
        rel_layout(o, f1),
        rel_layout(f1, f2),
    ensures
        f2 == f1,
{
    assert(layout_inputs_agree(o, f1)) by {
        assert forall|x: int| #[trigger] o.alive(x) implies o.parent_of(x) == f1.parent_of(x) by {
            assert(f1.slot(x) == (SlotV { rect: f1.slot(x).rect, ..o.slot(x) }));
        }
        assert forall|x: int| #[trigger] o.alive(x) implies o.comp(x, ComponentKey::Size)
            == f1.comp(x, ComponentKey::Size) by {
            assert(f1.slot(x) == (SlotV { rect: f1.slot(x).rect, ..o.slot(x) }));
        }
        assert forall|x: int|
            #[trigger] o.alive(x) && o.parent_of(x) is None implies o.comp(x, ComponentKey::Rect)
                == f1.comp(x, ComponentKey::Rect) by {
            assert(f1.slots[x] == o.slots[x]);
        }
    }
    assert forall|x: int|
        f1.alive(x) && #[trigger] f1.parent_of(x) is Some implies f1.value_of(
        x,
        ComponentKey::Rect,
    ) == Some(ComponentValue::Rect(spec_rect_of(f1, x))) by {
        assert(o.alive(x));
        assert(f1.slot(x) == (SlotV { rect: f1.slot(x).rect, ..o.slot(x) }));
        assert(o.parent_of(x) is Some);
        assert(f1.value_of(x, ComponentKey::Rect) == Some(
            ComponentValue::Rect(spec_rect_of(o, x)),
        ));
        lemma_resolved_size_agree(o, f1, x);
    }
}

/// Law: running the layout pass twice with no intervening change to its
/// inputs leaves the store of the first pass untouched and triggers no
/// "changed" notification: a query that observed the store after the
/// first pass matches no entity through a changed filter after the
/// second.
pub proof fn lemma_second_layout_pass_silent(
    o: WorldV,
    f1: WorldV,
    f2: WorldV,
    x: int,
    k: ComponentKey,
)
    requires
        o.wf(),
        f1.wf(),
        rel_layout(o, f1),
        rel_layout(f1, f2),
    ensures
        f2 == f1,
        !crate::query::passes_filter(f2, x, crate::query::Filter::Changed(k), f1.tick),
{
    lemma_layout_idempotent(o, f1, f2);
    lemma_changed_filter_quiet(f1, x, k);
}

/// Law: after a pass that wrote nothing, a query that observed the
/// store's current tick sees no entity as "changed": every stored cell
/// was written at or before the tick the query observed.
pub proof fn lemma_changed_filter_quiet(w: WorldV, x: int, k: ComponentKey)
    requires
        w.wf(),
    ensures
        !crate::query::passes_filter(w, x, crate::query::Filter::Changed(k), w.tick),
{
    if w.alive(x) {
        assert(w.slot_wf(x));
        match w.comp(x, k) {
            Some(c) => {
                assert(w.cell_ok(w.slot(x).comp(k), k));
            },
            None => {},
        }
    }
}

} // verus!
