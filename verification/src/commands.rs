//! The deferred command buffer: mutations discovered while a query is
//! borrowed are recorded here and applied once the borrow ends.
//! Commands apply in recorded order; a command aimed at an entity that
//! has meanwhile been despawned is a no-op, never a panic.

use vstd::prelude::*;

use crate::store::key_admits;
use crate::store::ComponentKey;
use crate::store::ComponentValue;
use crate::store::Entity;
use crate::store::SlotV;
use crate::store::World;
use crate::store::WorldV;

verus! {

/// One deferred mutation, carrying its target identity. Validity is
/// checked at apply time, not at record time.
#[derive(Clone, Copy, PartialEq, Eq, Structural, Debug)]
pub enum Command {
    /// Overwrite the component.
    Write(Entity, ComponentKey, ComponentValue),
    /// Write the component only if the entity does not already hold
    /// one; used to patch incomplete entities without clobbering
    /// caller-supplied values.
    WriteMissing(Entity, ComponentKey, ComponentValue),
    /// Drop the component.
    Remove(Entity, ComponentKey),
    /// Spawn a fresh entity, as a root or under the given parent.
    Spawn(Option<Entity>),
    /// Despawn the entity and its subtree.
    Despawn(Entity),
}

/// A freshly spawned slot: no relations, no components.
pub open spec fn empty_slot(parent: Option<usize>) -> SlotV {
    SlotV {
        parent,
        children: Seq::empty(),
        rect: None,
        screen_position: None,
        local_position: None,
        size: None,
        payload: None,
    }
}

/// A recorded value must be admissible for its key (a rectangle
/// payload keeps the rectangle invariant).
pub open spec fn cmd_wf(c: Command) -> bool {
    match c {
        Command::Write(_, k, v) => key_admits(k, v),
        Command::WriteMissing(_, k, v) => key_admits(k, v),
        Command::Remove(_, _) => true,
        Command::Spawn(_) => true,
        Command::Despawn(_) => true,
    }
}

/// How applying one command relates the store before to the store
/// after: a stale target (or an already-present component for a
/// set-if-missing) leaves the store untouched.
pub open spec fn applies_one(pre: WorldV, c: Command, post: WorldV) -> bool {
    match c {
        Command::Write(e, k, v) => if pre.alive(e.id as int) {
            post == pre.set_result(e.id as int, k, v)
        } else {
            post == pre
        },
        Command::WriteMissing(e, k, v) => if pre.alive(e.id as int) && pre.comp(e.id as int, k)
            is None {
            post == pre.set_result(e.id as int, k, v)
        } else {
            post == pre
        },
        Command::Remove(e, k) => if pre.alive(e.id as int) && pre.comp(e.id as int, k) is Some {
            post == pre.remove_result(e.id as int, k)
        } else {
            post == pre
        },
        Command::Spawn(parent) => match parent {
            None => post == (WorldV { slots: pre.slots.push(Some(empty_slot(None))), ..pre }),
            Some(p) => if pre.alive(p.id as int) {
                post == (WorldV {
                    slots: pre.slots.update(
                        p.id as int,
                        Some(
                            SlotV {
                                children: pre.children_of(p.id as int).push((pre.n()) as usize),
                                ..pre.slot(p.id as int)
                            },
                        ),
                    ).push(Some(empty_slot(Some(p.id)))),
                    ..pre
                })
            } else {
                post == pre
            },
        },
        Command::Despawn(e) => if pre.alive(e.id as int) {
            pre.rel_despawn(e.id as int, post)
        } else {
            post == pre
        },
    }
}

/// How applying a whole sequence of commands, in order, relates the
/// store before to the store after.
pub open spec fn applies_seq(pre: WorldV, cmds: Seq<Command>, post: WorldV) -> bool
    decreases cmds.len(),
{
    if cmds.len() == 0 {
        post == pre
    } else {
        exists|mid: WorldV| #[trigger]
            applies_one(pre, cmds[0], mid) && applies_seq(mid, cmds.skip(1), post)
    }
}

/// Extends an application chain by one more command at its end.
pub proof fn lemma_applies_snoc(
    pre: WorldV,
    cmds: Seq<Command>,
    mid: WorldV,
    c: Command,
    post: WorldV,
)
    requires
        applies_seq(pre, cmds, mid),
        applies_one(mid, c, post),
    ensures
        applies_seq(pre, cmds.push(c), post),
    decreases cmds.len(),
{
    if cmds.len() == 0 {
        assert(mid == pre);
        assert(cmds.push(c)[0] == c);
        assert(cmds.push(c).skip(1) =~= Seq::<Command>::empty());
        assert(applies_one(pre, cmds.push(c)[0], post));
        assert(applies_seq(post, cmds.push(c).skip(1), post));
    } else {
        let m1 = choose|m1: WorldV| #[trigger]
            applies_one(pre, cmds[0], m1) && applies_seq(m1, cmds.skip(1), mid);
        lemma_applies_snoc(m1, cmds.skip(1), mid, c, post);
        assert(cmds.push(c).skip(1) =~= cmds.skip(1).push(c));
        assert(cmds.push(c)[0] == cmds[0]);
        assert(applies_one(pre, cmds.push(c)[0], m1) && applies_seq(
            m1,
            cmds.push(c).skip(1),
            post,
        ));
    }
}

/// A queue of deferred mutations, applied atomically in recorded order
/// once the borrow that produced them ends.
pub struct CommandBuffer {
    cmds: Vec<Command>,
}

impl View for CommandBuffer {
    type V = Seq<Command>;

    closed spec fn view(&self) -> Seq<Command> {
        self.cmds@
    }
}

impl CommandBuffer {
    /// Every recorded command carries an admissible value.
    pub open spec fn wf(self) -> bool {
        forall|i: int| 0 <= i < self@.len() ==> cmd_wf(#[trigger] self@[i])
    }

    /// An empty buffer.
    pub fn new() -> (cb: CommandBuffer)
        ensures
            cb@ == Seq::<Command>::empty(),
            cb.wf(),
    {
        CommandBuffer { cmds: Vec::new() }
    }

    /// Records an overwrite of component `key` on `e`.
    pub fn set(&mut self, e: Entity, key: ComponentKey, value: ComponentValue)
        requires
            old(self).wf(),
            key_admits(key, value),
        ensures
            final(self).wf(),
            final(self)@ == old(self)@.push(Command::Write(e, key, value)),
    {
        self.cmds.push(Command::Write(e, key, value));
        proof {
            assert forall|i: int| 0 <= i < self@.len() implies cmd_wf(#[trigger] self@[i]) by {
                if i < old(self)@.len() {
                    assert(self@[i] == old(self)@[i]);
                }
            }
        }
    }

    /// Records a write of component `key` on `e` that applies only if
    /// the component is then still missing.
    pub fn set_missing(&mut self, e: Entity, key: ComponentKey, value: ComponentValue)
        requires
            old(self).wf(),
            key_admits(key, value),
        ensures
            final(self).wf(),
            final(self)@ == old(self)@.push(Command::WriteMissing(e, key, value)),
    {
        self.cmds.push(Command::WriteMissing(e, key, value));
        proof {
            assert forall|i: int| 0 <= i < self@.len() implies cmd_wf(#[trigger] self@[i]) by {
                if i < old(self)@.len() {
                    assert(self@[i] == old(self)@[i]);
                }
            }
        }
    }

    /// Records a removal of component `key` on `e`.
    pub fn remove(&mut self, e: Entity, key: ComponentKey)
        requires
            old(self).wf(),
        ensures
            final(self).wf(),
            final(self)@ == old(self)@.push(Command::Remove(e, key)),
    {
        self.cmds.push(Command::Remove(e, key));
        proof {
            assert forall|i: int| 0 <= i < self@.len() implies cmd_wf(#[trigger] self@[i]) by {
                if i < old(self)@.len() {
                    assert(self@[i] == old(self)@[i]);
                }
            }
        }
    }

    /// Records a spawn of a fresh entity, as a root or under `parent`.
    /// The new identity is not known at record time; it is issued when
    /// the buffer applies.
    pub fn spawn(&mut self, parent: Option<Entity>)
        requires
            old(self).wf(),
        ensures
            final(self).wf(),
            final(self)@ == old(self)@.push(Command::Spawn(parent)),
    {
        self.cmds.push(Command::Spawn(parent));
        proof {
            assert forall|i: int| 0 <= i < self@.len() implies cmd_wf(#[trigger] self@[i]) by {
                if i < old(self)@.len() {
                    assert(self@[i] == old(self)@[i]);
                }
            }
        }
    }

    /// Records a despawn of `e` and its subtree.
    pub fn despawn(&mut self, e: Entity)
        requires
            old(self).wf(),
        ensures
            final(self).wf(),
            final(self)@ == old(self)@.push(Command::Despawn(e)),
    {
        self.cmds.push(Command::Despawn(e));
        proof {
            assert forall|i: int| 0 <= i < self@.len() implies cmd_wf(#[trigger] self@[i]) by {
                if i < old(self)@.len() {
                    assert(self@[i] == old(self)@[i]);
                }
            }
        }
    }

    /// Records an arbitrary command.
    pub fn record(&mut self, c: Command)
        requires
            old(self).wf(),
            cmd_wf(c),
        ensures
            final(self).wf(),
            final(self)@ == old(self)@.push(c),
    {
        self.cmds.push(c);
        proof {
            assert forall|i: int| 0 <= i < self@.len() implies cmd_wf(#[trigger] self@[i]) by {
                if i < old(self)@.len() {
                    assert(self@[i] == old(self)@[i]);
                }
            }
        }
    }

    /// The number of pending commands.
    pub fn len(&self) -> (n: usize)
        ensures
            n == self@.len(),
    {
        self.cmds.len()
    }

    /// Applies the pending commands to the store, in recorded order,
    /// and leaves the buffer empty. A single apply pass never panics:
    /// commands aimed at despawned entities are skipped.
    pub fn apply(&mut self, w: &mut World)
        requires
            old(self).wf(),
            old(w)@.wf(),
        ensures
            final(self).wf(),
            final(self)@ == Seq::<Command>::empty(),
            final(w)@.wf(),
            applies_seq(old(w)@, old(self)@, final(w)@),
    {
        let count = self.cmds.len();
        let ghost pre = w@;
        let mut i: usize = 0;
        while i < count
            invariant
                old(self).wf(),
                self@ == old(self)@,
                count == self@.len(),
                i <= count,
                w@.wf(),
                applies_seq(pre, self@.take(i as int), w@),
            decreases count - i,
        {
            let ghost before = w@;
            let c = self.cmds[i];
            proof {
                assert(cmd_wf(self@[i as int]));
            }
            match c {
                Command::Write(e, key, value) => {
                    let r = w.set(e, key, value);
                    proof {
                        match r {
                            Ok(_) => {},
                            Err(_) => {},
                        }
                    }
                },
                Command::WriteMissing(e, key, value) => {
                    let missing = w.get(e, key).is_none();
                    if missing {
                        let r = w.set(e, key, value);
                        proof {
                            match r {
                                Ok(_) => {},
                                Err(_) => {},
                            }
                        }
                    }
                },
                Command::Remove(e, key) => {
                    let r = w.remove(e, key);
                    proof {
                        match r {
                            Ok(_) => {},
                            Err(_) => {},
                        }
                    }
                },
                Command::Spawn(parent) => {
                    match parent {
                        None => {
                            let spawned = w.spawn();
                            proof {
                                assert(w@.slots =~= before.slots.push(
                                    Some(empty_slot(None)),
                                ));
                                assert(w@ =~= WorldV {
                                    slots: before.slots.push(Some(empty_slot(None))),
                                    ..before
                                });
                            }
                        },
                        Some(p) => {
                            let r = w.spawn_child(p);
                            proof {
                                match r {
                                    Ok(child) => {
                                        assert(w@.slots =~= before.slots.update(
                                            p.id as int,
                                            Some(
                                                SlotV {
                                                    children: before.children_of(
                                                        p.id as int,
                                                    ).push((before.n()) as usize),
                                                    ..before.slot(p.id as int)
                                                },
                                            ),
                                        ).push(Some(empty_slot(Some(p.id)))));
                                        assert(w@ =~= WorldV {
                                            slots: before.slots.update(
                                                p.id as int,
                                                Some(
                                                    SlotV {
                                                        children: before.children_of(
                                                            p.id as int,
                                                        ).push((before.n()) as usize),
                                                        ..before.slot(p.id as int)
                                                    },
                                                ),
                                            ).push(Some(empty_slot(Some(p.id)))),
                                            ..before
                                        });
                                    },
                                    Err(_) => {},
                                }
                            }
                        },
                    }
                },
                Command::Despawn(e) => {
                    let r = w.despawn(e);
                    proof {
                        match r {
                            Ok(_) => {},
                            Err(_) => {},
                        }
                    }
                },
            }
            proof {
                assert(applies_one(before, self@[i as int], w@));
                lemma_applies_snoc(pre, self@.take(i as int), before, self@[i as int], w@);
                assert(self@.take(i as int).push(self@[i as int]) =~= self@.take(i + 1));
            }
            i = i + 1;
        }
        proof {
            assert(self@.take(count as int) =~= self@);
        }
        self.cmds.clear();
    }
}

} // verus!
