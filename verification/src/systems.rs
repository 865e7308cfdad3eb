//! The built-in systems: templating, which patches entities missing
//! baseline layout and position components with defaults through the
//! command buffer, and a generic hydration system that turns matching
//! entities into deferred commands through a caller-supplied function.

use vstd::prelude::*;

use crate::commands::cmd_wf;
use crate::commands::Command;
use crate::commands::CommandBuffer;
use crate::math::Rect;
use crate::math::Vec2;
use crate::query::lemma_match_agree;
use crate::query::match_ids;
use crate::query::q_matches;
use crate::query::some_conflict;
use crate::query::Query;
use crate::store::lemma_value_agree;
use crate::store::BorrowConflict;
use crate::store::ComponentKey;
use crate::store::ComponentValue;
use crate::store::Entity;
use crate::store::World;
use crate::store::WorldV;

verus! {

/// The default a missing baseline component is patched with.
pub open spec fn default_for(k: ComponentKey) -> ComponentValue {
    match k {
        ComponentKey::Rect => ComponentValue::Rect(
            Rect { min: Vec2 { x: 0, y: 0 }, max: Vec2 { x: 0, y: 0 } },
        ),
        _ => ComponentValue::Vec2(Vec2 { x: 0, y: 0 }),
    }
}

/// The patch commands templating records for entity `e`: one
/// set-if-missing per absent baseline component.
pub open spec fn patch_one(w: WorldV, e: int, k: ComponentKey) -> Seq<Command> {
    if w.alive(e) && w.comp(e, k) is None {
        seq![Command::WriteMissing(Entity { id: e as usize }, k, default_for(k))]
    } else {
        Seq::empty()
    }
}

/// All patch commands for entity `e`, in key order.
pub open spec fn patches_for(w: WorldV, e: int) -> Seq<Command> {
    patch_one(w, e, ComponentKey::Rect) + patch_one(w, e, ComponentKey::ScreenPosition)
        + patch_one(w, e, ComponentKey::LocalPosition)
}

/// All patch commands for the first `n` identities, in id order.
pub open spec fn all_patches(w: WorldV, n: int) -> Seq<Command>
    decreases n,
{
    if n <= 0 {
        Seq::empty()
    } else {
        all_patches(w, n - 1) + patches_for(w, n - 1)
    }
}

/// The component set templating reads: the three baseline kinds whose
/// presence it checks.
pub open spec fn templating_reads() -> Seq<ComponentKey> {
    seq![ComponentKey::Rect, ComponentKey::ScreenPosition, ComponentKey::LocalPosition]
}

/// Templating writes no component directly: its patches go through the
/// buffer and land at the flush.
pub open spec fn templating_writes() -> Seq<ComponentKey> {
    Seq::<ComponentKey>::empty()
}

/// The templating system: acquires a read borrow on the three baseline
/// component kinds through the registry, then records, for every live
/// entity, a set-if-missing with the default value for each such
/// component the entity lacks. The store itself is untouched until the
/// buffer is flushed. If a live borrow writes one of those kinds, the
/// system fails fast with a borrow conflict and records nothing.
#[verifier::loop_isolation(false)]
pub fn templating_system(w: &mut World, cmd: &mut CommandBuffer) -> (r: Result<
    (),
    BorrowConflict,
>)
    requires
        old(w)@.wf(),
        old(cmd).wf(),
    ensures
        final(w)@.wf(),
        final(cmd).wf(),
        r is Err <==> (some_conflict(old(w)@, templating_reads(), templating_writes()) || old(
            w,
        )@.next_borrow == u64::MAX),
        r is Err ==> final(w)@ == old(w)@ && final(cmd)@ == old(cmd)@,
        r is Ok ==> final(w)@ == old(w)@ && final(cmd)@ == old(cmd)@ + all_patches(
            old(w)@,
            old(w)@.n(),
        ),
{
    let ghost o = old(w)@;
    let mut reads: Vec<ComponentKey> = Vec::new();
    reads.push(ComponentKey::Rect);
    reads.push(ComponentKey::ScreenPosition);
    reads.push(ComponentKey::LocalPosition);
    let q = Query::new(reads, Vec::new());
    proof {
        assert(q.reads@ =~= templating_reads());
        assert(q.writes@ =~= templating_writes());
    }
    let token = match w.borrow_query(&q) {
        Ok(token) => token,
        Err(conflict) => {
            return Err(conflict);
        },
    };
    let ghost w1 = w@;
    let n = w.entity_count();
    let mut e: usize = 0;
    proof {
        assert(w1.slots == o.slots);
        assert(cmd@ =~= old(cmd)@ + all_patches(o, 0));
    }
    while e < n
        invariant
            cmd.wf(),
            w@ == w1,
            n == o.n(),
            e <= n,
            cmd@ == old(cmd)@ + all_patches(o, e as int),
        decreases n - e,
    {
        let ent = Entity { id: e };
        let ghost at_entry = cmd@;
        proof {
            lemma_value_agree(o, w@, e as int, ComponentKey::Rect);
            lemma_value_agree(o, w@, e as int, ComponentKey::ScreenPosition);
            lemma_value_agree(o, w@, e as int, ComponentKey::LocalPosition);
        }
        if w.is_alive(ent) {
            if w.get_cell(ent, ComponentKey::Rect).is_none() {
                cmd.set_missing(
                    ent,
                    ComponentKey::Rect,
                    ComponentValue::Rect(Rect::new(Vec2::new(0, 0), Vec2::new(0, 0))),
                );
            }
            if w.get_cell(ent, ComponentKey::ScreenPosition).is_none() {
                cmd.set_missing(
                    ent,
                    ComponentKey::ScreenPosition,
                    ComponentValue::Vec2(Vec2::new(0, 0)),
                );
            }
            if w.get_cell(ent, ComponentKey::LocalPosition).is_none() {
                cmd.set_missing(
                    ent,
                    ComponentKey::LocalPosition,
                    ComponentValue::Vec2(Vec2::new(0, 0)),
                );
            }
        }
        proof {
            assert(cmd@ =~= at_entry + patches_for(o, e as int));
            assert(all_patches(o, e + 1) == all_patches(o, e as int) + patches_for(o, e as int));
            assert(cmd@ =~= old(cmd)@ + all_patches(o, e + 1));
        }
        e = e + 1;
    }
    w.release_latest(token);
    proof {
        assert(w@ =~= o);
    }
    Ok(())
}

/// A command produced by one hydration step: some matching entity's
/// component value was handed to `produce`, which returned the command.
pub open spec fn hydrated_cmd<F: Fn(Entity, ComponentValue) -> Option<Command>>(
    w: WorldV,
    filters: Seq<crate::query::Filter>,
    last_seen: u64,
    key: ComponentKey,
    produce: F,
    c: Command,
) -> bool {
    exists|e: Entity, v: ComponentValue|
        {
            &&& q_matches(w, e.id as int, filters, last_seen)
            &&& w.value_of(e.id as int, key) == Some(v)
            &&& #[trigger] call_ensures(produce, (e, v), Some(c))
        }
}

/// Entity `x` was handed to `produce` during a hydration pass whose
/// appended commands start at `base` in `cmds`: some outcome `r` of the
/// call is accounted for, and if it was a command, the command is among
/// the appended ones.
pub open spec fn hydrate_handled<F: Fn(Entity, ComponentValue) -> Option<Command>>(
    w: WorldV,
    key: ComponentKey,
    produce: F,
    x: int,
    cmds: Seq<Command>,
    base: int,
) -> bool {
    exists|r: Option<Command>|
        {
            &&& #[trigger] call_ensures(
                produce,
                (Entity { id: x as usize }, w.value_of(x, key)->Some_0),
                r,
            )
            &&& (r is Some ==> exists|i: int| base <= i < cmds.len() && cmds[i] == r->Some_0)
        }
}

/// A handled entity stays handled when the command list only grows.
proof fn lemma_handled_grows<F: Fn(Entity, ComponentValue) -> Option<Command>>(
    w: WorldV,
    key: ComponentKey,
    produce: F,
    x: int,
    prev: Seq<Command>,
    cur: Seq<Command>,
    base: int,
)
    requires
        0 <= base,
        hydrate_handled(w, key, produce, x, prev, base),
        prev.len() <= cur.len(),
        forall|i: int| 0 <= i < prev.len() ==> cur[i] == prev[i],
    ensures
        hydrate_handled(w, key, produce, x, cur, base),
{
    let r = choose|r: Option<Command>|
        {
            &&& #[trigger] call_ensures(
                produce,
                (Entity { id: x as usize }, w.value_of(x, key)->Some_0),
                r,
            )
            &&& (r is Some ==> exists|i: int| base <= i < prev.len() && prev[i] == r->Some_0)
        };
    if r is Some {
        let i = choose|i: int| base <= i < prev.len() && prev[i] == r->Some_0;
        assert(cur[i] == r->Some_0);
    }
}

/// What one hydration visit of entity `m` appends: nothing when `m`
/// holds no value under the key; otherwise one call outcome of
/// `produce`, whose command (if any) is the whole appended part.
pub open spec fn hydrate_step<F: Fn(Entity, ComponentValue) -> Option<Command>>(
    w: WorldV,
    key: ComponentKey,
    produce: F,
    m: Entity,
    delta: Seq<Command>,
) -> bool {
    match w.value_of(m.id as int, key) {
        Some(v) => exists|r: Option<Command>|
            #[trigger] call_ensures(produce, (m, v), r) && (match r {
                Some(c) => delta == seq![c],
                None => delta.len() == 0,
            }),
        None => delta.len() == 0,
    }
}

/// How one hydration pass turns the ascending match list `ms` into the
/// appended command list `out`: each match is visited once, in order,
/// and contributes its step's commands.
pub open spec fn hydrate_appends<F: Fn(Entity, ComponentValue) -> Option<Command>>(
    w: WorldV,
    key: ComponentKey,
    produce: F,
    ms: Seq<Entity>,
    out: Seq<Command>,
) -> bool
    decreases ms.len(),
{
    if ms.len() == 0 {
        out.len() == 0
    } else {
        match w.value_of(ms[0].id as int, key) {
            Some(v) => exists|r: Option<Command>|
                #[trigger] call_ensures(produce, (ms[0], v), r) && (match r {
                    Some(c) => out.len() > 0 && out[0] == c && hydrate_appends(
                        w,
                        key,
                        produce,
                        ms.skip(1),
                        out.skip(1),
                    ),
                    None => hydrate_appends(w, key, produce, ms.skip(1), out),
                }),
            None => hydrate_appends(w, key, produce, ms.skip(1), out),
        }
    }
}

/// Extends a hydration chain by one more visited match at its end.
proof fn lemma_appends_snoc<F: Fn(Entity, ComponentValue) -> Option<Command>>(
    w: WorldV,
    key: ComponentKey,
    produce: F,
    ms: Seq<Entity>,
    out: Seq<Command>,
    m: Entity,
    delta: Seq<Command>,
)
    requires
        hydrate_appends(w, key, produce, ms, out),
        hydrate_step(w, key, produce, m, delta),
    ensures
        hydrate_appends(w, key, produce, ms.push(m), out + delta),
    decreases ms.len(),
{
    assert(ms.push(m).len() == ms.len() + 1);
    if ms.len() == 0 {
        assert(ms.push(m)[0] == m);
        assert(ms.push(m).skip(1) =~= Seq::<Entity>::empty());
        assert(ms.push(m)[0].id == m.id);
        match w.value_of(m.id as int, key) {
            Some(v) => {
                let r = choose|r: Option<Command>|
                    #[trigger] call_ensures(produce, (m, v), r) && (match r {
                        Some(c) => delta == seq![c],
                        None => delta.len() == 0,
                    });
                assert(call_ensures(produce, (ms.push(m)[0], v), r));
                match r {
                    Some(c) => {
                        assert((out + delta)[0] == c);
                        assert((out + delta).skip(1) =~= Seq::<Command>::empty());
                        assert(hydrate_appends(w, key, produce, ms.push(m).skip(1), (out
                            + delta).skip(1)));
                    },
                    None => {
                        assert((out + delta).len() == 0);
                        assert(hydrate_appends(w, key, produce, ms.push(m).skip(1), out + delta));
                    },
                }
                assert(hydrate_appends(w, key, produce, ms.push(m), out + delta));
            },
            None => {
                assert((out + delta).len() == 0);
                assert(hydrate_appends(w, key, produce, ms.push(m).skip(1), out + delta));
                assert(hydrate_appends(w, key, produce, ms.push(m), out + delta));
            },
        }
    } else {
        assert(ms.push(m)[0] == ms[0]);
        assert(ms.push(m).skip(1) =~= ms.skip(1).push(m));
        match w.value_of(ms[0].id as int, key) {
            Some(v) => {
                let r = choose|r: Option<Command>|
                    #[trigger] call_ensures(produce, (ms[0], v), r) && (match r {
                        Some(c) => out.len() > 0 && out[0] == c && hydrate_appends(
                            w,
                            key,
                            produce,
                            ms.skip(1),
                            out.skip(1),
                        ),
                        None => hydrate_appends(w, key, produce, ms.skip(1), out),
                    });
                assert(call_ensures(produce, (ms.push(m)[0], v), r));
                match r {
                    Some(c) => {
                        lemma_appends_snoc(w, key, produce, ms.skip(1), out.skip(1), m, delta);
                        assert((out + delta)[0] == c);
                        assert((out + delta).skip(1) =~= out.skip(1) + delta);
                    },
                    None => {
                        lemma_appends_snoc(w, key, produce, ms.skip(1), out, m, delta);
                    },
                }
            },
            None => {
                lemma_appends_snoc(w, key, produce, ms.skip(1), out, m, delta);
            },
        }
    }
}

/// One hydration pass over an already-acquired borrow.
#[verifier::loop_isolation(false)]
fn hydrate_pass<F: Fn(Entity, ComponentValue) -> Option<Command>>(
    w: &World,
    q: &Query,
    key: ComponentKey,
    cmd: &mut CommandBuffer,
    produce: F,
)
    requires
        w@.wf(),
        old(cmd).wf(),
        forall|e: Entity, v: ComponentValue| #[trigger] call_requires(produce, (e, v)),
        forall|e: Entity, v: ComponentValue, c: Command|
            call_ensures(produce, (e, v), Some(c)) ==> cmd_wf(c),
    ensures
        final(cmd).wf(),
        final(cmd)@.len() >= old(cmd)@.len(),
        forall|i: int| 0 <= i < old(cmd)@.len() ==> final(cmd)@[i] == old(cmd)@[i],
        forall|i: int|
            old(cmd)@.len() <= i < final(cmd)@.len() ==> hydrated_cmd(
                w@,
                q.filters@,
                q.last_seen,
                key,
                produce,
                #[trigger] final(cmd)@[i],
            ),
        forall|x: int|
            0 <= x < w@.n() && #[trigger] q_matches(w@, x, q.filters@, q.last_seen)
                && w@.value_of(x, key) is Some ==> hydrate_handled(
                w@,
                key,
                produce,
                x,
                final(cmd)@,
                old(cmd)@.len() as int,
            ),
        hydrate_appends(
            w@,
            key,
            produce,
            match_ids(w@, q.filters@, q.last_seen, w@.n()),
            final(cmd)@.skip(old(cmd)@.len() as int),
        ),
{
    let matches = q.matching(w);
    proof {
        assert(cmd@.skip(old(cmd)@.len() as int) =~= Seq::<Command>::empty());
        assert(matches@.take(0) =~= Seq::<Entity>::empty());
    }
    let mut i: usize = 0;
    while i < matches.len()
        invariant
            cmd.wf(),
            i <= matches@.len(),
            cmd@.len() >= old(cmd)@.len(),
            forall|k: int| 0 <= k < old(cmd)@.len() ==> cmd@[k] == old(cmd)@[k],
            forall|k: int|
                old(cmd)@.len() <= k < cmd@.len() ==> hydrated_cmd(
                    w@,
                    q.filters@,
                    q.last_seen,
                    key,
                    produce,
                    #[trigger] cmd@[k],
                ),
            forall|k: int|
                0 <= k < i && w@.value_of((#[trigger] matches@[k]).id as int, key)
                    is Some ==> hydrate_handled(
                    w@,
                    key,
                    produce,
                    matches@[k].id as int,
                    cmd@,
                    old(cmd)@.len() as int,
                ),
            hydrate_appends(
                w@,
                key,
                produce,
                matches@.take(i as int),
                cmd@.skip(old(cmd)@.len() as int),
            ),
        decreases matches@.len() - i,
    {
        let ent = matches[i];
        let ghost prev = cmd@;
        let ghost base = old(cmd)@.len() as int;
        match w.get(ent, key) {
            Some(v) => {
                let produced = produce(ent, v);
                proof {
                    assert((matches@[i as int]).id == ent.id);
                    assert(q_matches(w@, ent.id as int, q.filters@, q.last_seen));
                    assert(w@.value_of(ent.id as int, key) == Some(v));
                }
                match produced {
                    Some(c) => {
                        cmd.record(c);
                        proof {
                            assert(call_ensures(produce, (ent, v), Some(c)));
                            assert(hydrated_cmd(w@, q.filters@, q.last_seen, key, produce, c));
                            assert forall|k: int|
                                old(cmd)@.len() <= k < cmd@.len() implies hydrated_cmd(
                                w@,
                                q.filters@,
                                q.last_seen,
                                key,
                                produce,
                                #[trigger] cmd@[k],
                            ) by {
                                if k < prev.len() {
                                    assert(cmd@[k] == prev[k]);
                                } else {
                                    assert(cmd@[k] == c);
                                }
                            }
                            // the appended chain grows by this command
                            assert(hydrate_step(w@, key, produce, ent, seq![c]));
                            lemma_appends_snoc(
                                w@,
                                key,
                                produce,
                                matches@.take(i as int),
                                prev.skip(base),
                                ent,
                                seq![c],
                            );
                            assert(matches@.take(i as int).push(ent) =~= matches@.take(i + 1));
                            assert(cmd@.skip(base) =~= prev.skip(base) + seq![c]);
                            // the entity just visited is handled, and the
                            // earlier ones stay handled
                            assert(cmd@[cmd@.len() - 1] == c);
                            assert(hydrate_handled(w@, key, produce, ent.id as int, cmd@, base));
                            assert forall|k: int|
                                0 <= k < i + 1 && w@.value_of(
                                    (#[trigger] matches@[k]).id as int,
                                    key,
                                ) is Some implies hydrate_handled(
                                w@,
                                key,
                                produce,
                                matches@[k].id as int,
                                cmd@,
                                base,
                            ) by {
                                if k < i as int {
                                    lemma_handled_grows(
                                        w@,
                                        key,
                                        produce,
                                        matches@[k].id as int,
                                        prev,
                                        cmd@,
                                        base,
                                    );
                                }
                            }
                        }
                    },
                    None => {
                        proof {
                            assert(call_ensures(produce, (ent, v), None::<Command>));
                            assert(hydrate_handled(w@, key, produce, ent.id as int, cmd@, base));
                            assert(hydrate_step(
                                w@,
                                key,
                                produce,
                                ent,
                                Seq::<Command>::empty(),
                            ));
                            lemma_appends_snoc(
                                w@,
                                key,
                                produce,
                                matches@.take(i as int),
                                prev.skip(base),
                                ent,
                                Seq::empty(),
                            );
                            assert(matches@.take(i as int).push(ent) =~= matches@.take(i + 1));
                            assert(cmd@.skip(base) =~= prev.skip(base) + Seq::<Command>::empty());
                        }
                    },
                }
            },
            None => {
                proof {
                    assert((matches@[i as int]).id == ent.id);
                    assert(w@.value_of(ent.id as int, key) is None);
                    assert(hydrate_step(w@, key, produce, ent, Seq::<Command>::empty()));
                    lemma_appends_snoc(
                        w@,
                        key,
                        produce,
                        matches@.take(i as int),
                        prev.skip(base),
                        ent,
                        Seq::empty(),
                    );
                    assert(matches@.take(i as int).push(ent) =~= matches@.take(i + 1));
                    assert(cmd@.skip(base) =~= prev.skip(base) + Seq::<Command>::empty());
                }
            },
        }
        i = i + 1;
    }
    proof {
        assert forall|x: int|
            0 <= x < w@.n() && #[trigger] q_matches(w@, x, q.filters@, q.last_seen)
                && w@.value_of(x, key) is Some implies hydrate_handled(
            w@,
            key,
            produce,
            x,
            cmd@,
            old(cmd)@.len() as int,
        ) by {
            let k = choose|k: int| 0 <= k < matches@.len() && (#[trigger] matches@[k]).id == x;
            assert(matches@[k].id as int == x);
        }
        assert(matches@.take(matches@.len() as int) =~= matches@);
    }
}

/// A command a hydration step could have produced against one store it
/// could equally have produced against another with the same slots.
proof fn lemma_hydrated_cmd_agree<F: Fn(Entity, ComponentValue) -> Option<Command>>(
    a: WorldV,
    b: WorldV,
    filters: Seq<crate::query::Filter>,
    last_seen: u64,
    key: ComponentKey,
    produce: F,
    c: Command,
)
    requires
        a.slots == b.slots,
        hydrated_cmd(a, filters, last_seen, key, produce, c),
    ensures
        hydrated_cmd(b, filters, last_seen, key, produce, c),
{
    let (e, v) = choose|e: Entity, v: ComponentValue|
        {
            &&& q_matches(a, e.id as int, filters, last_seen)
            &&& a.value_of(e.id as int, key) == Some(v)
            &&& #[trigger] call_ensures(produce, (e, v), Some(c))
        };
    lemma_match_agree(a, b, filters, last_seen, 0);
    lemma_value_agree(a, b, e.id as int, key);
    assert(q_matches(b, e.id as int, filters, last_seen));
    assert(b.value_of(e.id as int, key) == Some(v));
}

/// A handled entity of one store is handled in another with the same
/// slots.
proof fn lemma_hydrate_handled_agree<F: Fn(Entity, ComponentValue) -> Option<Command>>(
    a: WorldV,
    b: WorldV,
    key: ComponentKey,
    produce: F,
    x: int,
    cmds: Seq<Command>,
    base: int,
)
    requires
        a.slots == b.slots,
        hydrate_handled(a, key, produce, x, cmds, base),
    ensures
        hydrate_handled(b, key, produce, x, cmds, base),
{
    lemma_value_agree(a, b, x, key);
    let r = choose|r: Option<Command>|
        {
            &&& #[trigger] call_ensures(
                produce,
                (Entity { id: x as usize }, a.value_of(x, key)->Some_0),
                r,
            )
            &&& (r is Some ==> exists|i: int| base <= i < cmds.len() && cmds[i] == r->Some_0)
        };
    assert(call_ensures(produce, (Entity { id: x as usize }, b.value_of(x, key)->Some_0), r));
}

/// A hydration chain over one store is a hydration chain over another
/// with the same slots.
proof fn lemma_hydrate_appends_agree<F: Fn(Entity, ComponentValue) -> Option<Command>>(
    a: WorldV,
    b: WorldV,
    key: ComponentKey,
    produce: F,
    ms: Seq<Entity>,
    out: Seq<Command>,
)
    requires
        a.slots == b.slots,
        hydrate_appends(a, key, produce, ms, out),
    ensures
        hydrate_appends(b, key, produce, ms, out),
    decreases ms.len(),
{
    if ms.len() > 0 {
        lemma_value_agree(a, b, ms[0].id as int, key);
        match a.value_of(ms[0].id as int, key) {
            Some(v) => {
                let r = choose|r: Option<Command>|
                    #[trigger] call_ensures(produce, (ms[0], v), r) && (match r {
                        Some(c) => out.len() > 0 && out[0] == c && hydrate_appends(
                            a,
                            key,
                            produce,
                            ms.skip(1),
                            out.skip(1),
                        ),
                        None => hydrate_appends(a, key, produce, ms.skip(1), out),
                    });
                match r {
                    Some(c) => {
                        lemma_hydrate_appends_agree(a, b, key, produce, ms.skip(1), out.skip(1));
                    },
                    None => {
                        lemma_hydrate_appends_agree(a, b, key, produce, ms.skip(1), out);
                    },
                }
            },
            None => {
                lemma_hydrate_appends_agree(a, b, key, produce, ms.skip(1), out);
            },
        }
    }
}

/// What one hydration stage does to the command buffer, against store
/// `w`: the earlier commands stay, every appended command is a
/// `produce` outcome of a matching entity, every matching entity with a
/// value under the key is handed to `produce` once, and the appended
/// part follows the ascending match order.
pub open spec fn rel_hydration<F: Fn(Entity, ComponentValue) -> Option<Command>>(
    w: WorldV,
    filters: Seq<crate::query::Filter>,
    last_seen: u64,
    key: ComponentKey,
    produce: F,
    pre: Seq<Command>,
    post: Seq<Command>,
) -> bool {
    &&& post.len() >= pre.len()
    &&& forall|i: int| 0 <= i < pre.len() ==> post[i] == pre[i]
    &&& forall|i: int|
        pre.len() <= i < post.len() ==> hydrated_cmd(
            w,
            filters,
            last_seen,
            key,
            produce,
            #[trigger] post[i],
        )
    &&& forall|x: int|
        0 <= x < w.n() && #[trigger] q_matches(w, x, filters, last_seen) && w.value_of(x, key)
            is Some ==> hydrate_handled(w, key, produce, x, post, pre.len() as int)
    &&& hydrate_appends(
        w,
        key,
        produce,
        match_ids(w, filters, last_seen, w.n()),
        post.skip(pre.len() as int),
    )
}

/// The hydration system: acquires the borrow `q` declares through the
/// registry, then, for every entity matching `q`, reads its component
/// under `key` and lets `produce` turn the pair into a deferred
/// command, recorded in order of ascending entity id; the borrow is
/// released afterwards. If a live borrow aliases the declared access,
/// it fails fast with a borrow conflict and records nothing. Used to
/// resolve pending external resources referenced by components: the
/// expensive resolution runs outside, only its outcome enters the
/// store, through the buffer.
#[verifier::rlimit(100)]
pub fn hydrate<F: Fn(Entity, ComponentValue) -> Option<Command>>(
    w: &mut World,
    q: &Query,
    key: ComponentKey,
    cmd: &mut CommandBuffer,
    produce: F,
) -> (r: Result<(), BorrowConflict>)
    requires
        old(w)@.wf(),
        old(cmd).wf(),
        forall|e: Entity, v: ComponentValue| #[trigger] call_requires(produce, (e, v)),
        forall|e: Entity, v: ComponentValue, c: Command|
            call_ensures(produce, (e, v), Some(c)) ==> cmd_wf(c),
    ensures
        final(w)@.wf(),
        final(cmd).wf(),
        r is Err <==> (some_conflict(old(w)@, q.reads@, q.writes@) || old(w)@.next_borrow
            == u64::MAX),
        r is Err ==> final(w)@ == old(w)@ && final(cmd)@ == old(cmd)@,
        r is Ok ==> final(w)@ == old(w)@,
        r is Ok ==> rel_hydration(
            old(w)@,
            q.filters@,
            q.last_seen,
            key,
            produce,
            old(cmd)@,
            final(cmd)@,
        ),
{
    let ghost o = old(w)@;
    let token = match w.borrow_query(q) {
        Ok(token) => token,
        Err(conflict) => {
            return Err(conflict);
        },
    };
    let ghost w1 = w@;
    hydrate_pass(w, q, key, cmd, produce);
    proof {
        assert(w@ == w1);
        assert(w1.borrows.last().id == token.id);
    }
    w.release_latest(token);
    proof {
        assert(w@ =~= o);
        assert(w1.slots == o.slots);
        lemma_match_agree(w1, o, q.filters@, q.last_seen, o.n());
        assert forall|i: int|
            old(cmd)@.len() <= i < cmd@.len() implies hydrated_cmd(
            o,
            q.filters@,
            q.last_seen,
            key,
            produce,
            #[trigger] cmd@[i],
        ) by {
            lemma_hydrated_cmd_agree(w1, o, q.filters@, q.last_seen, key, produce, cmd@[i]);
        }
        assert forall|x: int|
            0 <= x < o.n() && #[trigger] q_matches(o, x, q.filters@, q.last_seen) && o.value_of(
                x,
                key,
            ) is Some implies hydrate_handled(o, key, produce, x, cmd@, old(cmd)@.len() as int) by {
            lemma_value_agree(w1, o, x, key);
            assert(q_matches(w1, x, q.filters@, q.last_seen));
            assert(hydrate_handled(w1, key, produce, x, cmd@, old(cmd)@.len() as int));
            lemma_hydrate_handled_agree(w1, o, key, produce, x, cmd@, old(cmd)@.len() as int);
        }
        lemma_hydrate_appends_agree(
            w1,
            o,
            key,
            produce,
            match_ids(w1, q.filters@, q.last_seen, w1.n()),
            cmd@.skip(old(cmd)@.len() as int),
        );
        assert(match_ids(w1, q.filters@, q.last_seen, w1.n()) == match_ids(
            o,
            q.filters@,
            q.last_seen,
            o.n(),
        ));
    }
    Ok(())
}

} // verus!
