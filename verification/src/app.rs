//! The application face of the core: the per-tick frame context, the
//! widget mounting contract, and the canvas that roots a widget tree in
//! a window-sized rectangle. The event loop and the graphics backend
//! live outside; they reach the shared state only through the frame.

use vstd::prelude::*;

use crate::cache::AssetCache;
use crate::math::Rect;
use crate::math::Vec2;
use crate::store::lemma_in_subtree_ge;
use crate::store::lemma_in_subtree_trans;
use crate::store::ComponentKey;
use crate::store::ComponentValue;
use crate::store::Entity;
use crate::store::EntityNotFound;
use crate::store::World;
use crate::store::WorldV;

verus! {

/// The single per-tick context: the entity store, the asset cache, and
/// the time elapsed since the previous tick, in milliseconds. It is the
/// only channel through which systems and external collaborators reach
/// shared state; its contents mutate, the context persists.
pub struct Frame<A> {
    pub world: World,
    pub assets: AssetCache<A>,
    pub delta_time: u64,
}

/// What mounting a widget onto entity `e` may do to the store: it may
/// write components of `e` and of entities it spawns under `e`, and
/// nothing else. No pre-existing entity is despawned or re-parented,
/// every newly spawned entity is wired into the subtree of `e`, every
/// slot outside that subtree is left untouched, and the borrow registry
/// is left alone.
pub open spec fn mount_footprint(pre: WorldV, post: WorldV, e: int) -> bool {
    &&& post.n() >= pre.n()
    &&& forall|x: int|
        #[trigger] pre.alive(x) ==> post.alive(x) && post.parent_of(x) == pre.parent_of(x)
    &&& forall|x: int|
        pre.n() <= x < post.n() && #[trigger] post.alive(x) ==> post.in_subtree(e, x)
    &&& forall|x: int|
        0 <= x < pre.n() && (pre.alive(x) ==> !post.in_subtree(e, x)) ==> #[trigger] post.slots[x]
            == pre.slots[x]
    &&& post.borrows == pre.borrows
    &&& post.next_borrow == pre.next_borrow
}

/// The capability of being mounted: writing baseline components onto a
/// freshly spawned entity and, possibly, attaching child widgets, each
/// on its own entity wired into the relation tree. Implementations must
/// leave the store well-formed and stay within the mount footprint: they
/// reach only the mounted entity and what they spawn beneath it.
pub trait Widget<A>: Sized {
    fn mount(self, frame: &mut Frame<A>, id: Entity)
        requires
            old(frame).world@.wf(),
            old(frame).world@.alive(id.id as int),
        ensures
            final(frame).world@.wf(),
            mount_footprint(old(frame).world@, final(frame).world@, id.id as int),
    ;
}

impl<A> Frame<A> {
    /// A fresh context with an empty store and an empty cache.
    pub fn new() -> (f: Frame<A>)
        ensures
            f.world@.wf(),
            f.world@.n() == 0,
            f.assets@ == Seq::<Option<A>>::empty(),
            f.delta_time == 0,
    {
        Frame { world: World::new(), assets: AssetCache::new(), delta_time: 0 }
    }

    /// Spawns a fresh root entity, mounts `widget` onto it, and returns
    /// the freshly issued identity, which is still live.
    pub fn new_root<W: Widget<A>>(&mut self, widget: W) -> (e: Entity)
        requires
            old(self).world@.wf(),
        ensures
            final(self).world@.wf(),
            e.id == old(self).world@.n(),
            final(self).world@.alive(e.id as int),
            !old(self).world@.alive(e.id as int),
            mount_footprint(old(self).world@, final(self).world@, e.id as int),
    {
        let e = self.world.spawn();
        let ghost spawned = self.world@;
        widget.mount(self, e);
        proof {
            assert(mount_footprint(old(self).world@, self.world@, e.id as int)) by {
                let o = old(self).world@;
                let mid = spawned;
                let f = self.world@;
                assert forall|x: int|
                    o.n() <= x < f.n() && #[trigger] f.alive(x) implies f.in_subtree(
                    e.id as int,
                    x,
                ) by {
                    assert(mid.alive(e.id as int));
                    assert(f.alive(e.id as int));
                    if x == e.id as int {
                        assert(f.in_subtree(e.id as int, x));
                    } else {
                        assert(mid.n() <= x < f.n());
                    }
                }
                assert forall|x: int|
                    0 <= x < o.n() && (o.alive(x) ==> !f.in_subtree(e.id as int, x)) implies (
                #[trigger] f.slots[x]) == o.slots[x] by {
                    assert(mid.slots[x] == o.slots[x]);
                    if o.alive(x) {
                        assert(mid.alive(x));
                    }
                }
            }
        }
        e
    }
}

/// A widget that fills the window: it takes the window extent as its
/// rectangle (clamped to non-negative sizes), zero positions, and
/// mounts one child widget into it.
pub struct Canvas<W> {
    pub size: Vec2,
    pub root: W,
}

impl<A, W: Widget<A>> Widget<A> for Canvas<W> {
    /// Mounting a canvas writes its extent (clamped non-negative) as the
    /// entity's rectangle and zero screen and local positions, then
    /// spawns exactly one fresh child under the entity and mounts the
    /// inner widget there; everything else the mount creates lives in
    /// that child's subtree.
    #[verifier::rlimit(100)]
    fn mount(self, frame: &mut Frame<A>, id: Entity)
        ensures
            final(frame).world@.value_of(id.id as int, ComponentKey::Rect) == Some(
                ComponentValue::Rect(
                    Rect {
                        min: Vec2 { x: 0, y: 0 },
                        max: self.size.spec_vclamp(
                            Vec2 { x: 0, y: 0 },
                            Vec2 { x: i64::MAX, y: i64::MAX },
                        ),
                    },
                ),
            ),
            final(frame).world@.value_of(id.id as int, ComponentKey::ScreenPosition) == Some(
                ComponentValue::Vec2(Vec2 { x: 0, y: 0 }),
            ),
            final(frame).world@.value_of(id.id as int, ComponentKey::LocalPosition) == Some(
                ComponentValue::Vec2(Vec2 { x: 0, y: 0 }),
            ),
            final(frame).world@.n() > old(frame).world@.n(),
            final(frame).world@.alive(old(frame).world@.n()),
            final(frame).world@.parent_of(old(frame).world@.n()) == Some(id.id),
            final(frame).world@.children_of(id.id as int) == old(frame).world@.children_of(
                id.id as int,
            ).push((old(frame).world@.n()) as usize),
            forall|x: int|
                old(frame).world@.n() < x < final(frame).world@.n()
                    && #[trigger] final(frame).world@.alive(x) ==> final(frame).world@.in_subtree(
                    old(frame).world@.n(),
                    x,
                ),
    {
        let ghost o = old(frame).world@;
        let ghost e = id.id as int;
        let size = self.size.vclamp(
            Vec2::new(0, 0),
            Vec2::new(i64::MAX, i64::MAX),
        );
        let rect = Rect::new(Vec2::new(0, 0), size);
        let set_rect = frame.world.set(id, ComponentKey::Rect, ComponentValue::Rect(rect));
        let set_screen = frame.world.set(
            id,
            ComponentKey::ScreenPosition,
            ComponentValue::Vec2(Vec2::new(0, 0)),
        );
        let set_local = frame.world.set(
            id,
            ComponentKey::LocalPosition,
            ComponentValue::Vec2(Vec2::new(0, 0)),
        );
        let ghost w1 = frame.world@;
        proof {
            assert(set_rect is Ok && set_screen is Ok && set_local is Ok);
            assert(w1.n() == o.n());
            assert(w1.borrows == o.borrows && w1.next_borrow == o.next_borrow);
            assert(forall|x: int| 0 <= x < o.n() && x != e ==> w1.slots[x] == o.slots[x]);
            assert(forall|x: int| #[trigger] w1.alive(x) == o.alive(x));
            assert(w1.slot(e).parent == o.slot(e).parent);
            assert(w1.slot(e).children == o.slot(e).children);
            assert(w1.value_of(e, ComponentKey::Rect) == Some(ComponentValue::Rect(rect)));
            assert(w1.value_of(e, ComponentKey::ScreenPosition) == Some(
                ComponentValue::Vec2(Vec2 { x: 0, y: 0 }),
            ));
            assert(w1.value_of(e, ComponentKey::LocalPosition) == Some(
                ComponentValue::Vec2(Vec2 { x: 0, y: 0 }),
            ));
        }
        let spawned = frame.world.spawn_child(id);
        let child = match spawned {
            Ok(child) => child,
            Err(_) => {
                proof {
                    assert(false);
                }
                id
            },
        };
        let ghost w2 = frame.world@;
        let ghost c = child.id as int;
        proof {
            assert(c == o.n());
            assert(e < c) by {
                assert(o.alive(e));
            }
            assert(w2.alive(e) && w2.alive(c));
            assert(w2.parent_of(c) == Some(id.id));
            assert(w2.slot(e).parent == o.slot(e).parent);
            assert(w2.children_of(e) == o.children_of(e).push(child.id));
            assert(forall|x: int| 0 <= x < o.n() && x != e ==> w2.slots[x] == o.slots[x]);
            assert(w2.value_of(e, ComponentKey::Rect) == Some(ComponentValue::Rect(rect)));
            assert(w2.value_of(e, ComponentKey::ScreenPosition) == Some(
                ComponentValue::Vec2(Vec2 { x: 0, y: 0 }),
            ));
            assert(w2.value_of(e, ComponentKey::LocalPosition) == Some(
                ComponentValue::Vec2(Vec2 { x: 0, y: 0 }),
            ));
        }
        self.root.mount(frame, child);
        proof {
            let f = frame.world@;
            assert(mount_footprint(w2, f, c));
            assert(f.alive(e) && f.alive(c));
            // the inner mount stays inside the child's subtree, which
            // does not hold the canvas entity
            assert(!f.in_subtree(c, e)) by {
                if f.in_subtree(c, e) {
                    lemma_in_subtree_ge(f, c, e);
                }
            }
            assert(f.slots[e] == w2.slots[e]);
            assert(f.parent_of(c) == Some(id.id));
            assert(f.in_subtree(e, e));
            assert(f.in_subtree(e, c));
            // new entities of the inner mount sit under the child
            assert forall|x: int| c < x < f.n() && #[trigger] f.alive(x) implies f.in_subtree(
                c,
                x,
            ) by {
                assert(w2.n() <= x < f.n());
            }
            // the whole-mount footprint, composed from the three phases
            assert forall|x: int| #[trigger] o.alive(x) implies f.alive(x) && f.parent_of(x)
                == o.parent_of(x) by {
                assert(w1.alive(x));
                assert(w2.alive(x));
                if x != e {
                    assert(w2.slots[x] == o.slots[x]);
                }
                assert(w2.parent_of(x) == o.parent_of(x));
            }
            assert forall|x: int|
                o.n() <= x < f.n() && #[trigger] f.alive(x) implies f.in_subtree(e, x) by {
                if x == c {
                } else {
                    assert(f.in_subtree(c, x));
                    lemma_in_subtree_trans(f, e, c, x);
                }
            }
            assert forall|x: int|
                0 <= x < o.n() && (o.alive(x) ==> !f.in_subtree(e, x)) implies (
            #[trigger] f.slots[x]) == o.slots[x] by {
                assert(x != e) by {
                    if x == e {
                        assert(o.alive(e));
                        assert(f.in_subtree(e, e));
                    }
                }
                assert(w2.slots[x] == o.slots[x]);
                assert(!(w2.alive(x) && f.in_subtree(c, x))) by {
                    if w2.alive(x) && f.in_subtree(c, x) {
                        assert(f.alive(x));
                        lemma_in_subtree_trans(f, e, c, x);
                        assert(o.alive(x));
                    }
                }
                assert(f.slots[x] == w2.slots[x]);
            }
            assert(mount_footprint(o, f, e));
        }
    }
}

/// The application shell. Event delivery and drawing are the outer
/// loop's business; the shell owns what they act on.
pub struct App {
}

impl App {
    pub fn new() -> (a: App)
        ensures
            a == (App {  }),
    {
        App {  }
    }
}

impl Default for App {
    fn default() -> (a: App)
        ensures
            a == (App {  }),
    {
        App {  }
    }
}

/// The boundary translation of a window resize: the root entity's
/// rectangle is set directly to the new extent (clamped to non-negative
/// sizes); the next layout pass propagates it.
pub fn handle_resize(w: &mut World, root: Entity, extent: Vec2) -> (r: Result<(), EntityNotFound>)
    requires
        old(w)@.wf(),
    ensures
        final(w)@.wf(),
        r is Err <==> !old(w)@.alive(root.id as int),
        r is Ok ==> final(w)@.value_of(root.id as int, ComponentKey::Rect) == Some(
            ComponentValue::Rect(
                Rect {
                    min: Vec2 { x: 0, y: 0 },
                    max: extent.spec_vclamp(
                        Vec2 { x: 0, y: 0 },
                        Vec2 { x: i64::MAX, y: i64::MAX },
                    ),
                },
            ),
        ),
{
    let size = extent.vclamp(Vec2::new(0, 0), Vec2::new(i64::MAX, i64::MAX));
    let rect = Rect::new(Vec2::new(0, 0), size);
    w.set(root, ComponentKey::Rect, ComponentValue::Rect(rect))
}

} // verus!
