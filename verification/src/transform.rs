//! Transform propagation: a depth-first pass along the parent-child
//! relation that turns each node's local offset into an absolute screen
//! position. The accumulator starts at zero at each forest root; at
//! each visited node the screen position becomes accumulator plus local
//! offset, and the node's own screen position is the accumulator its
//! children receive. A node missing either position component is
//! skipped together with its whole subtree, as is a subtree whose
//! ancestor was skipped.

use vstd::prelude::*;

use crate::layout::spec_root_of;
use crate::layout::lemma_root_of;
use crate::layout::lemma_root_unique;
use crate::layout::vec2_zero;
use crate::math::Vec2;
use crate::query::some_conflict;
use crate::query::Query;
use crate::store::lemma_in_subtree_ge;
use crate::store::lemma_in_subtree_trans;
use crate::store::lemma_sibling_subtrees_disjoint;
use crate::store::ComponentKey;
use crate::store::ComponentValue;
use crate::store::Entity;
use crate::store::BorrowConflict;
use crate::store::SlotV;
use crate::store::World;
use crate::store::WorldV;

verus! {

/// The local offset of `e`, when it holds one.
pub open spec fn local_of(w: WorldV, e: int) -> Option<Vec2> {
    match w.value_of(e, ComponentKey::LocalPosition) {
        Some(v) => match v {
            ComponentValue::Vec2(d) => Some(d),
            _ => None,
        },
        None => None,
    }
}

/// Whether the pass visits `e`: it is live, holds both position
/// components, and so does every ancestor.
pub open spec fn vis(w: WorldV, e: int) -> bool
    decreases e,
    when w.wf() && 0 <= e
{
    &&& w.alive(e)
    &&& w.comp(e, ComponentKey::ScreenPosition) is Some
    &&& w.comp(e, ComponentKey::LocalPosition) is Some
    &&& match w.parent_of(e) {
        Some(p) => vis(w, p as int),
        None => true,
    }
}

/// The screen position the pass computes for a visited node: the sum of
/// the local offsets along its ancestor chain (a root's accumulator is
/// the zero vector).
pub open spec fn spec_screen(w: WorldV, e: int) -> Vec2
    decreases e,
    when w.wf() && w.alive(e) && vis(w, e)
{
    let l = local_of(w, e)->Some_0;
    match w.parent_of(e) {
        None => vec2_zero().spec_vadd(l),
        Some(p) => spec_screen(w, p as int).spec_vadd(l),
    }
}

/// A visited node's ancestors are all visited.
pub proof fn lemma_vis_ancestor(w: WorldV, e: int, x: int)
    requires
        w.wf(),
        w.alive(x),
        w.in_subtree(e, x),
        vis(w, x),
    ensures
        vis(w, e),
    decreases x,
{
    if x != e {
        match w.parent_of(x) {
            Some(p) => {
                assert(w.slot_wf(x));
                lemma_vis_ancestor(w, e, p as int);
            },
            None => {},
        }
    }
}

/// The store facts the pass reads: aliveness, parent edges, local
/// offsets, and the presence of screen-position components.
pub open spec fn transform_inputs_agree(a: WorldV, b: WorldV) -> bool {
    &&& a.n() == b.n()
    &&& forall|x: int| #[trigger] a.alive(x) == b.alive(x)
    &&& forall|x: int| #[trigger] a.alive(x) ==> a.parent_of(x) == b.parent_of(x)
    &&& forall|x: int|
        #[trigger] a.alive(x) ==> a.comp(x, ComponentKey::LocalPosition) == b.comp(
            x,
            ComponentKey::LocalPosition,
        )
    &&& forall|x: int|
        #[trigger] a.alive(x) ==> (a.comp(x, ComponentKey::ScreenPosition) is Some) == (b.comp(
            x,
            ComponentKey::ScreenPosition,
        ) is Some)
}

/// Visiting and the computed positions agree between two stores that
/// agree on the pass's inputs.
pub proof fn lemma_screen_agree(a: WorldV, b: WorldV, e: int)
    requires
        a.wf(),
        b.wf(),
        transform_inputs_agree(a, b),
        0 <= e,
    ensures
        vis(a, e) == vis(b, e),
        vis(a, e) ==> spec_screen(a, e) == spec_screen(b, e),
    decreases e,
{
    if a.alive(e) {
        assert(a.slot_wf(e));
        match a.parent_of(e) {
            Some(p) => {
                lemma_screen_agree(a, b, p as int);
            },
            None => {},
        }
    }
}

/// Subtree membership is the same in two stores that agree on the
/// pass's inputs.
pub proof fn lemma_in_subtree_agree_transform(a: WorldV, b: WorldV, e: int, x: int)
    requires
        a.wf(),
        b.wf(),
        transform_inputs_agree(a, b),
        a.alive(x),
    ensures
        a.in_subtree(e, x) == b.in_subtree(e, x),
    decreases x,
{
    if x != e {
        match a.parent_of(x) {
            Some(p) => {
                assert(a.slot_wf(x));
                lemma_in_subtree_agree_transform(a, b, e, p as int);
            },
            None => {},
        }
    }
}

/// What one transform visit of the subtree rooted at `e` does: every
/// visited member carries its computed screen position; everything else
/// is untouched.
pub open spec fn rel_transformed_subtree(o: WorldV, f: WorldV, e: int) -> bool {
    &&& f.n() == o.n()
    &&& forall|x: int| #[trigger] f.alive(x) == o.alive(x)
    &&& f.borrows == o.borrows
    &&& f.next_borrow == o.next_borrow
    &&& o.tick <= f.tick
    &&& forall|x: int|
        0 <= x < o.n() && !(o.alive(x) && o.in_subtree(e, x) && vis(o, x)) ==> #[trigger] f.slots[x]
            == o.slots[x]
    &&& forall|x: int|
        o.alive(x) && #[trigger] o.in_subtree(e, x) && vis(o, x) ==> {
            &&& f.slot(x) == (SlotV { screen_position: f.slot(x).screen_position, ..o.slot(x) })
            &&& f.value_of(x, ComponentKey::ScreenPosition) == Some(
                ComponentValue::Vec2(spec_screen(o, x)),
            )
        }
}

/// Visits the subtree rooted at `e` with accumulator `acc` (the screen
/// position of the parent of `e`, or zero at a root), writing the
/// screen position of every visited node.
#[verifier::loop_isolation(false)]
#[verifier::rlimit(100)]
pub fn transform_node(w: &mut World, e: Entity, acc: Vec2)
    requires
        old(w)@.wf(),
        old(w)@.alive(e.id as int),
        match old(w)@.parent_of(e.id as int) {
            Some(p) => vis(old(w)@, p as int) && acc == spec_screen(old(w)@, p as int),
            None => acc == vec2_zero(),
        },
    ensures
        final(w)@.wf(),
        rel_transformed_subtree(old(w)@, final(w)@, e.id as int),
    decreases old(w)@.n() - e.id,
{
    let ghost o = old(w)@;
    let has_screen = w.get_cell(e, ComponentKey::ScreenPosition).is_some();
    let local: Option<Vec2> = match w.get(e, ComponentKey::LocalPosition) {
        Some(v) => match v {
            ComponentValue::Vec2(d) => Some(d),
            _ => None,
        },
        None => None,
    };
    let l = match local {
        Some(l) => l,
        None => {
            proof {
                assert(!vis(o, e.id as int));
                lemma_skip_subtree(o, e.id as int);
            }
            return ;
        },
    };
    if !has_screen {
        proof {
            assert(!vis(o, e.id as int));
            lemma_skip_subtree(o, e.id as int);
        }
        return ;
    }
    proof {
        assert(o.slot_wf(e.id as int));
        assert(vis(o, e.id as int));
    }
    let pos = acc.vadd(l);
    proof {
        assert(pos == spec_screen(o, e.id as int));
    }
    let set_r = w.set(e, ComponentKey::ScreenPosition, ComponentValue::Vec2(pos));
    proof {
        assert(set_r is Ok);
    }
    let kids = w.children(e);
    let ghost ch = o.children_of(e.id as int);
    let ghost base = w@;
    proof {
        assert forall|k: int| 0 <= k < ch.len() implies (#[trigger] kids@[k]).id == ch[k] by {
            assert(base.slot(e.id as int).children == o.slot(e.id as int).children);
        }
    }
    let mut i: usize = 0;
    while i < kids.len()
        invariant
            kids@.len() == ch.len(),
            forall|k: int| 0 <= k < ch.len() ==> (#[trigger] kids@[k]).id == ch[k],
            i <= ch.len(),
            w@.wf(),
            w@.n() == o.n(),
            forall|x: int| #[trigger] w@.alive(x) == o.alive(x),
            w@.borrows == o.borrows,
            w@.next_borrow == o.next_borrow,
            o.tick <= w@.tick,
            forall|x: int|
                #[trigger] w@.alive(x) ==> w@.slot(x) == (SlotV {
                    screen_position: w@.slot(x).screen_position,
                    ..o.slot(x)
                }),
            w@.value_of(e.id as int, ComponentKey::ScreenPosition) == Some(
                ComponentValue::Vec2(spec_screen(o, e.id as int)),
            ),
            forall|x: int|
                0 <= x < o.n() && x != e.id as int && !(o.alive(x) && (exists|k: int|
                    0 <= k < i && o.in_subtree(#[trigger] ch[k] as int, x) && vis(o, x)))
                    ==> #[trigger] w@.slots[x] == o.slots[x],
            forall|x: int|
                o.alive(x) && vis(o, x) && (exists|k: int|
                    0 <= k < i && #[trigger] o.in_subtree(#[trigger] ch[k] as int, x))
                    ==> w@.value_of(x, ComponentKey::ScreenPosition) == Some(
                    ComponentValue::Vec2(spec_screen(o, x)),
                ),
        decreases ch.len() - i,
    {
        let c = kids[i];
        proof {
            assert(o.slot_wf(e.id as int));
            assert(o.slot(e.id as int).children[i as int] == ch[i as int]);
            assert(o.alive(c.id as int));
            assert(o.parent_of(c.id as int) == Some(e.id));
            assert((e.id as int) < c.id as int);
            assert(transform_inputs_agree(o, w@)) by {
                assert forall|x: int| #[trigger] o.alive(x) implies o.parent_of(x) == w@.parent_of(
                    x,
                ) && o.comp(x, ComponentKey::LocalPosition) == w@.comp(
                    x,
                    ComponentKey::LocalPosition,
                ) && (o.comp(x, ComponentKey::ScreenPosition) is Some) == (w@.comp(
                    x,
                    ComponentKey::ScreenPosition,
                ) is Some) by {
                    assert(w@.slot(x) == (SlotV {
                        screen_position: w@.slot(x).screen_position,
                        ..o.slot(x)
                    }));
                    if x == e.id as int {
                        assert(w@.value_of(x, ComponentKey::ScreenPosition) is Some);
                    } else if o.alive(x) && (exists|k: int|
                        0 <= k < i && o.in_subtree(#[trigger] ch[k] as int, x) && vis(o, x)) {
                        assert(w@.value_of(x, ComponentKey::ScreenPosition) is Some);
                        assert(vis(o, x));
                        assert(o.comp(x, ComponentKey::ScreenPosition) is Some);
                    } else {
                        assert(w@.slots[x] == o.slots[x]);
                    }
                }
            }
            lemma_screen_agree(o, w@, e.id as int);
            assert(vis(w@, e.id as int) == vis(o, e.id as int));
        }
        let ghost before = w@;
        transform_node(w, c, pos);
        proof {
            lemma_transform_step(o, before, w@, e.id as int, ch, i as int, acc);
        }
        i = i + 1;
    }
    proof {
        assert forall|x: int|
            o.alive(x) && #[trigger] o.in_subtree(e.id as int, x) && vis(o, x) implies {
            &&& w@.slot(x) == (SlotV { screen_position: w@.slot(x).screen_position, ..o.slot(x) })
            &&& w@.value_of(x, ComponentKey::ScreenPosition) == Some(
                ComponentValue::Vec2(spec_screen(o, x)),
            )
        } by {
            if x == e.id as int {
            } else {
                crate::store::lemma_subtree_through_child(o, e.id as int, x);
                let k = choose|k: int|
                    0 <= k < o.children_of(e.id as int).len() && o.in_subtree(
                        #[trigger] o.children_of(e.id as int)[k] as int,
                        x,
                    );
                assert(o.in_subtree(ch[k] as int, x));
                assert(w@.alive(x));
            }
        }
        assert forall|x: int|
            0 <= x < o.n() && !(o.alive(x) && o.in_subtree(e.id as int, x) && vis(o, x)) implies (
        #[trigger] w@.slots[x]) == o.slots[x] by {
            assert(x != e.id as int) by {
                if x == e.id as int {
                    assert(o.in_subtree(e.id as int, x));
                }
            }
            if o.alive(x) {
                assert forall|k: int| 0 <= k < ch.len() implies !(o.in_subtree(
                    #[trigger] ch[k] as int,
                    x,
                ) && vis(o, x)) by {
                    if o.in_subtree(ch[k] as int, x) && vis(o, x) {
                        assert(o.slot_wf(e.id as int));
                        assert(o.slot(e.id as int).children[k] == ch[k]);
                        assert(o.alive(ch[k] as int));
                        assert(o.parent_of(ch[k] as int) == Some(e.id));
                        assert(o.in_subtree(e.id as int, e.id as int));
                        assert(o.in_subtree(e.id as int, ch[k] as int));
                        lemma_in_subtree_trans(o, e.id as int, ch[k] as int, x);
                        assert(false);
                    }
                }
            }
        }
    }
}

/// A node that is not visited has no visited member in its subtree, so
/// skipping the subtree changes nothing.
proof fn lemma_skip_subtree(o: WorldV, e: int)
    requires
        o.wf(),
        o.alive(e),
        !vis(o, e),
    ensures
        forall|x: int| o.alive(x) && #[trigger] o.in_subtree(e, x) ==> !vis(o, x),
{
    assert forall|x: int| o.alive(x) && #[trigger] o.in_subtree(e, x) implies !vis(o, x) by {
        if vis(o, x) {
            lemma_vis_ancestor(o, e, x);
        }
    }
}

/// One loop step of `transform_node` keeps its invariants.
#[verifier::rlimit(100)]
proof fn lemma_transform_step(
    o: WorldV,
    before: WorldV,
    cur: WorldV,
    e: int,
    ch: Seq<usize>,
    i: int,
    acc: Vec2,
)
    requires
        o.wf(),
        before.wf(),
        cur.wf(),
        o.alive(e),
        vis(o, e),
        0 <= i < ch.len(),
        ch == o.children_of(e),
        transform_inputs_agree(o, before),
        rel_transformed_subtree(before, cur, ch[i] as int),
        before.n() == o.n(),
        forall|x: int| #[trigger] before.alive(x) == o.alive(x),
        before.borrows == o.borrows,
        before.next_borrow == o.next_borrow,
        o.tick <= before.tick,
        forall|x: int|
            #[trigger] before.alive(x) ==> before.slot(x) == (SlotV {
                screen_position: before.slot(x).screen_position,
                ..o.slot(x)
            }),
        before.value_of(e, ComponentKey::ScreenPosition) == Some(
            ComponentValue::Vec2(spec_screen(o, e)),
        ),
        forall|x: int|
            0 <= x < o.n() && x != e && !(o.alive(x) && (exists|k: int|
                0 <= k < i && o.in_subtree(#[trigger] ch[k] as int, x) && vis(o, x)))
                ==> #[trigger] before.slots[x] == o.slots[x],
        forall|x: int|
            o.alive(x) && vis(o, x) && (exists|k: int|
                0 <= k < i && #[trigger] o.in_subtree(#[trigger] ch[k] as int, x))
                ==> before.value_of(x, ComponentKey::ScreenPosition) == Some(
                ComponentValue::Vec2(spec_screen(o, x)),
            ),
    ensures
        cur.n() == o.n(),
        forall|x: int| #[trigger] cur.alive(x) == o.alive(x),
        cur.borrows == o.borrows,
        cur.next_borrow == o.next_borrow,
        o.tick <= cur.tick,
        forall|x: int|
            #[trigger] cur.alive(x) ==> cur.slot(x) == (SlotV {
                screen_position: cur.slot(x).screen_position,
                ..o.slot(x)
            }),
        cur.value_of(e, ComponentKey::ScreenPosition) == Some(
            ComponentValue::Vec2(spec_screen(o, e)),
        ),
        forall|x: int|
            0 <= x < o.n() && x != e && !(o.alive(x) && (exists|k: int|
                0 <= k < i + 1 && o.in_subtree(#[trigger] ch[k] as int, x) && vis(o, x)))
                ==> #[trigger] cur.slots[x] == o.slots[x],
        forall|x: int|
            o.alive(x) && vis(o, x) && (exists|k: int|
                0 <= k < i + 1 && #[trigger] o.in_subtree(#[trigger] ch[k] as int, x))
                ==> cur.value_of(x, ComponentKey::ScreenPosition) == Some(
                ComponentValue::Vec2(spec_screen(o, x)),
            ),
{
    let c = ch[i] as int;
    assert(o.slot_wf(e));
    assert(o.slot(e).children[i] == ch[i]);
    assert(o.alive(c));
    assert(o.parent_of(c) == Some(e as usize));
    assert(o.in_subtree(e, e));
    assert(o.in_subtree(e, c));
    assert forall|x: int| o.alive(x) implies #[trigger] o.in_subtree(c, x) == before.in_subtree(
        c,
        x,
    ) by {
        lemma_in_subtree_agree_transform(o, before, c, x);
    }
    assert forall|x: int| o.alive(x) implies (vis(o, x) == vis(before, x)) && (vis(o, x)
        ==> spec_screen(o, x) == spec_screen(before, x)) by {
        lemma_screen_agree(o, before, x);
    }
    assert forall|x: int| #[trigger] cur.alive(x) implies cur.slot(x) == (SlotV {
        screen_position: cur.slot(x).screen_position,
        ..o.slot(x)
    }) by {
        assert(before.alive(x));
        if o.in_subtree(c, x) && vis(o, x) {
            assert(cur.slot(x) == (SlotV {
                screen_position: cur.slot(x).screen_position,
                ..before.slot(x)
            }));
        } else {
            assert(cur.slots[x] == before.slots[x]);
        }
    }
    assert(cur.value_of(e, ComponentKey::ScreenPosition) == Some(
        ComponentValue::Vec2(spec_screen(o, e)),
    )) by {
        assert(!o.in_subtree(c, e)) by {
            if o.in_subtree(c, e) {
                lemma_in_subtree_ge(o, c, e);
            }
        }
        assert(cur.slots[e] == before.slots[e]);
    }
    assert forall|x: int|
        0 <= x < o.n() && x != e && !(o.alive(x) && (exists|k: int|
            0 <= k < i + 1 && o.in_subtree(#[trigger] ch[k] as int, x) && vis(o, x))) implies (
    #[trigger] cur.slots[x]) == o.slots[x] by {
        if o.alive(x) {
            assert(before.slots[x] == o.slots[x]);
            if o.in_subtree(c, x) && vis(o, x) {
                assert(false);
            }
            assert(!(before.alive(x) && before.in_subtree(c, x) && vis(before, x)));
            assert(cur.slots[x] == before.slots[x]);
        } else {
            assert(before.slots[x] == o.slots[x]);
            assert(cur.slots[x] == before.slots[x]);
        }
    }
    assert forall|x: int|
        o.alive(x) && vis(o, x) && (exists|k: int|
            0 <= k < i + 1 && #[trigger] o.in_subtree(#[trigger] ch[k] as int, x))
        implies cur.value_of(x, ComponentKey::ScreenPosition) == Some(
        ComponentValue::Vec2(spec_screen(o, x)),
    ) by {
        let k = choose|k: int| 0 <= k < i + 1 && o.in_subtree(#[trigger] ch[k] as int, x);
        if k < i {
            assert(before.value_of(x, ComponentKey::ScreenPosition) == Some(
                ComponentValue::Vec2(spec_screen(o, x)),
            ));
            assert(!o.in_subtree(c, x)) by {
                if o.in_subtree(c, x) {
                    assert(o.slot(e).children[k] == ch[k]);
                    assert(o.alive(ch[k] as int));
                    assert(o.parent_of(ch[k] as int) == Some(e as usize));
                    assert(ch[k] != ch[i]);
                    lemma_sibling_subtrees_disjoint(o, e as usize, ch[k] as int, c, x);
                }
            }
            assert(cur.slots[x] == before.slots[x]);
        } else {
            assert(o.in_subtree(c, x));
            assert(before.in_subtree(c, x));
            assert(vis(before, x));
            assert(cur.value_of(x, ComponentKey::ScreenPosition) == Some(
                ComponentValue::Vec2(spec_screen(before, x)),
            ));
        }
    }
}

/// What one whole transform pass does to the store.
pub open spec fn rel_transform(o: WorldV, f: WorldV) -> bool {
    &&& f.n() == o.n()
    &&& forall|x: int| #[trigger] f.alive(x) == o.alive(x)
    &&& f.borrows == o.borrows
    &&& f.next_borrow == o.next_borrow
    &&& o.tick <= f.tick
    &&& forall|x: int|
        0 <= x < o.n() && !(o.alive(x) && vis(o, x)) ==> #[trigger] f.slots[x] == o.slots[x]
    &&& forall|x: int|
        o.alive(x) && #[trigger] vis(o, x) ==> {
            &&& f.slot(x) == (SlotV { screen_position: f.slot(x).screen_position, ..o.slot(x) })
            &&& f.value_of(x, ComponentKey::ScreenPosition) == Some(
                ComponentValue::Vec2(spec_screen(o, x)),
            )
        }
}

/// The component set the transform pass reads: local offsets.
pub open spec fn transform_reads() -> Seq<ComponentKey> {
    seq![ComponentKey::LocalPosition]
}

/// The component set the transform pass writes: screen positions.
pub open spec fn transform_writes() -> Seq<ComponentKey> {
    seq![ComponentKey::ScreenPosition]
}

/// One transform pass over an already-acquired borrow: visits every
/// root with a zero accumulator.
#[verifier::loop_isolation(false)]
#[verifier::rlimit(100)]
fn transform_pass(w: &mut World)
    requires
        old(w)@.wf(),
    ensures
        final(w)@.wf(),
        rel_transform(old(w)@, final(w)@),
{
    let ghost o = old(w)@;
    let rs = w.roots();
    let mut j: usize = 0;
    while j < rs.len()
        invariant
            w@.wf(),
            w@.n() == o.n(),
            forall|x: int| #[trigger] w@.alive(x) == o.alive(x),
            w@.borrows == o.borrows,
            w@.next_borrow == o.next_borrow,
            o.tick <= w@.tick,
            j <= rs@.len(),
            forall|x: int|
                #[trigger] w@.alive(x) ==> w@.slot(x) == (SlotV {
                    screen_position: w@.slot(x).screen_position,
                    ..o.slot(x)
                }),
            forall|x: int|
                0 <= x < o.n() && !(o.alive(x) && vis(o, x) && (exists|k: int|
                    0 <= k < j && (#[trigger] rs@[k]).id as int == spec_root_of(o, x)))
                    ==> #[trigger] w@.slots[x] == o.slots[x],
            forall|x: int|
                o.alive(x) && #[trigger] vis(o, x) && (exists|k: int|
                    0 <= k < j && (#[trigger] rs@[k]).id as int == spec_root_of(o, x))
                    ==> w@.value_of(x, ComponentKey::ScreenPosition) == Some(
                    ComponentValue::Vec2(spec_screen(o, x)),
                ),
        decreases rs@.len() - j,
    {
        let r = rs[j];
        proof {
            assert(o.alive(r.id as int) && o.parent_of(r.id as int) is None);
        }
        let ghost before = w@;
        proof {
            assert(transform_inputs_agree(o, before)) by {
                assert forall|x: int| #[trigger] o.alive(x) implies o.parent_of(x)
                    == before.parent_of(x) && o.comp(x, ComponentKey::LocalPosition) == before.comp(
                    x,
                    ComponentKey::LocalPosition,
                ) && (o.comp(x, ComponentKey::ScreenPosition) is Some) == (before.comp(
                    x,
                    ComponentKey::ScreenPosition,
                ) is Some) by {
                    assert(before.slot(x) == (SlotV {
                        screen_position: before.slot(x).screen_position,
                        ..o.slot(x)
                    }));
                    if o.alive(x) && vis(o, x) && (exists|k: int|
                        0 <= k < j && (#[trigger] rs@[k]).id as int == spec_root_of(o, x)) {
                        assert(before.value_of(x, ComponentKey::ScreenPosition) is Some);
                        assert(o.comp(x, ComponentKey::ScreenPosition) is Some);
                    } else {
                        assert(before.slots[x] == o.slots[x]);
                    }
                }
            }
            assert(before.parent_of(r.id as int) is None) by {
                assert(before.slot(r.id as int) == (SlotV {
                    screen_position: before.slot(r.id as int).screen_position,
                    ..o.slot(r.id as int)
                }));
            }
        }
        transform_node(w, r, Vec2::zero());
        proof {
            let written = w@;
            assert forall|x: int| o.alive(x) implies #[trigger] o.in_subtree(r.id as int, x)
                == before.in_subtree(r.id as int, x) by {
                lemma_in_subtree_agree_transform(o, before, r.id as int, x);
            }
            assert forall|x: int| o.alive(x) implies (vis(o, x) == vis(before, x)) && (vis(o, x)
                ==> spec_screen(o, x) == spec_screen(before, x)) by {
                lemma_screen_agree(o, before, x);
            }
            assert forall|x: int| o.alive(x) implies o.in_subtree(r.id as int, x) == (
            spec_root_of(o, x) == r.id as int) by {
                if o.in_subtree(r.id as int, x) {
                    lemma_root_unique(o, r.id as int, x);
                }
                if spec_root_of(o, x) == r.id as int {
                    lemma_root_of(o, x);
                }
            }
            assert forall|x: int|
                o.alive(x) && #[trigger] vis(o, x) && (exists|k: int|
                    0 <= k < j + 1 && (#[trigger] rs@[k]).id as int == spec_root_of(o, x))
                implies written.value_of(x, ComponentKey::ScreenPosition) == Some(
                ComponentValue::Vec2(spec_screen(o, x)),
            ) by {
                let k = choose|k: int|
                    0 <= k < j + 1 && (#[trigger] rs@[k]).id as int == spec_root_of(o, x);
                if k < j {
                    assert(!o.in_subtree(r.id as int, x)) by {
                        if o.in_subtree(r.id as int, x) {
                            assert(rs@[k].id as int == rs@[j as int].id as int);
                        }
                    }
                    assert(written.slots[x] == before.slots[x]);
                } else {
                    assert(o.in_subtree(r.id as int, x));
                    assert(before.in_subtree(r.id as int, x) && vis(before, x));
                    assert(written.value_of(x, ComponentKey::ScreenPosition) == Some(
                        ComponentValue::Vec2(spec_screen(before, x)),
                    ));
                }
            }
            assert forall|x: int|
                0 <= x < o.n() && !(o.alive(x) && vis(o, x) && (exists|k: int|
                    0 <= k < j + 1 && (#[trigger] rs@[k]).id as int == spec_root_of(o, x)))
                implies #[trigger] written.slots[x] == o.slots[x] by {
                if o.alive(x) {
                    assert(before.slots[x] == o.slots[x]) by {
                        if exists|k: int|
                            0 <= k < j && (#[trigger] rs@[k]).id as int == spec_root_of(o, x) {
                            let k2 = choose|k2: int|
                                0 <= k2 < j && (#[trigger] rs@[k2]).id as int == spec_root_of(
                                    o,
                                    x,
                                );
                            assert(0 <= k2 < j + 1 && rs@[k2].id as int == spec_root_of(o, x));
                            assert(!vis(o, x) || !o.alive(x));
                        }
                    }
                    assert(!(before.alive(x) && before.in_subtree(r.id as int, x) && vis(
                        before,
                        x,
                    ))) by {
                        if o.in_subtree(r.id as int, x) && vis(o, x) {
                            assert(spec_root_of(o, x) == r.id as int);
                            assert(0 <= j < j + 1 && rs@[j as int].id as int == spec_root_of(o, x));
                            assert(false);
                        }
                    }
                    assert(written.slots[x] == before.slots[x]);
                } else {
                    assert(before.slots[x] == o.slots[x]);
                    assert(written.slots[x] == before.slots[x]);
                }
            }
        }
        j = j + 1;
    }
    proof {
        assert forall|x: int|
            o.alive(x) && #[trigger] vis(o, x) implies w@.value_of(
            x,
            ComponentKey::ScreenPosition,
        ) == Some(ComponentValue::Vec2(spec_screen(o, x))) by {
            lemma_root_of(o, x);
        }
        assert forall|x: int|
            0 <= x < o.n() && !(o.alive(x) && vis(o, x)) implies #[trigger] w@.slots[x]
                == o.slots[x] by {}
    }
}

/// The transform system: acquires its declared borrow — local offsets
/// for reading, screen positions for writing — through the registry,
/// runs the pass, and releases the borrow. If a live borrow aliases
/// that access, it fails fast with a borrow conflict and the store is
/// untouched: the pass never runs against a conflicting borrow.
#[verifier::rlimit(100)]
pub fn transform_system(w: &mut World) -> (r: Result<(), BorrowConflict>)
    requires
        old(w)@.wf(),
    ensures
        final(w)@.wf(),
        r is Err <==> (some_conflict(old(w)@, transform_reads(), transform_writes()) || old(
            w,
        )@.next_borrow == u64::MAX),
        r is Err ==> final(w)@ == old(w)@,
        r is Ok ==> rel_transform(old(w)@, final(w)@),
{
    let ghost o = old(w)@;
    let mut reads: Vec<ComponentKey> = Vec::new();
    reads.push(ComponentKey::LocalPosition);
    let mut writes: Vec<ComponentKey> = Vec::new();
    writes.push(ComponentKey::ScreenPosition);
    let q = Query::new(reads, writes);
    proof {
        assert(q.reads@ =~= transform_reads());
        assert(q.writes@ =~= transform_writes());
    }
    let token = match w.borrow_query(&q) {
        Ok(token) => token,
        Err(conflict) => {
            return Err(conflict);
        },
    };
    let ghost w1 = w@;
    transform_pass(w);
    let ghost w2 = w@;
    proof {
        assert(w2.borrows == w1.borrows);
        assert(w1.borrows.last().id == token.id);
        assert(w2.next_borrow == w1.next_borrow);
    }
    w.release_latest(token);
    proof {
        let f = w@;
        assert(f.borrows =~= o.borrows);
        assert(f.next_borrow == o.next_borrow);
        assert(w1.slots == o.slots);
        assert(f.slots == w2.slots);
        // the registry entry is invisible to the pass: both stores hold
        // the same slots, so visiting and the computed positions agree
        assert(transform_inputs_agree(o, w1)) by {
            assert forall|x: int| #[trigger] o.alive(x) == w1.alive(x) by {}
            assert forall|x: int|
                #[trigger] o.alive(x) implies o.parent_of(x) == w1.parent_of(x) && o.comp(
                x,
                ComponentKey::LocalPosition,
            ) == w1.comp(x, ComponentKey::LocalPosition) && (o.comp(
                x,
                ComponentKey::ScreenPosition,
            ) is Some) == (w1.comp(x, ComponentKey::ScreenPosition) is Some) by {
                assert(o.slot(x) == w1.slot(x));
            }
        }
        assert(rel_transform(o, f)) by {
            assert forall|x: int| #[trigger] f.alive(x) == o.alive(x) by {
                assert(w2.alive(x) == w1.alive(x));
            }
            assert forall|x: int|
                0 <= x < o.n() && !(o.alive(x) && vis(o, x)) implies #[trigger] f.slots[x]
                    == o.slots[x] by {
                lemma_screen_agree(o, w1, x);
                assert(!(w1.alive(x) && vis(w1, x)));
                assert(w2.slots[x] == w1.slots[x]);
            }
            assert forall|x: int| o.alive(x) && #[trigger] vis(o, x) implies {
                &&& f.slot(x) == (SlotV {
                    screen_position: f.slot(x).screen_position,
                    ..o.slot(x)
                })
                &&& f.value_of(x, ComponentKey::ScreenPosition) == Some(
                    ComponentValue::Vec2(spec_screen(o, x)),
                )
            } by {
                lemma_screen_agree(o, w1, x);
                assert(w1.alive(x) && vis(w1, x));
                assert(w2.slot(x) == (SlotV {
                    screen_position: w2.slot(x).screen_position,
                    ..w1.slot(x)
                }));
                assert(w2.value_of(x, ComponentKey::ScreenPosition) == Some(
                    ComponentValue::Vec2(spec_screen(w1, x)),
                ));
                assert(spec_screen(w1, x) == spec_screen(o, x));
            }
        }
    }
    Ok(())
}

/// Law: after one transform pass, every visited child sits exactly at
/// its parent's screen position plus its own local offset, and every
/// visited root sits at its own local offset.
pub proof fn lemma_transform_parent_child(o: WorldV, f: WorldV, c: int)
    requires
        o.wf(),
        rel_transform(o, f),
        o.alive(c),
        vis(o, c),
    ensures
        match o.parent_of(c) {
            Some(p) => f.value_of(c, ComponentKey::ScreenPosition) == Some(
                ComponentValue::Vec2(
                    spec_screen(o, p as int).spec_vadd(local_of(o, c)->Some_0),
                ),
            ) && f.value_of(p as int, ComponentKey::ScreenPosition) == Some(
                ComponentValue::Vec2(spec_screen(o, p as int)),
            ),
            None => f.value_of(c, ComponentKey::ScreenPosition) == Some(
                ComponentValue::Vec2(vec2_zero().spec_vadd(local_of(o, c)->Some_0)),
            ),
        },
{
    assert(o.slot_wf(c));
    match o.parent_of(c) {
        Some(p) => {
            assert(vis(o, p as int));
            assert(o.alive(p as int));
        },
        None => {},
    }
}

} // verus!
