//! The scheduler: an ordered pipeline of systems executed sequentially
//! once per tick, with explicit flush points that force the pending
//! command buffer to apply before the systems after the flush read the
//! store. Systems before a flush observe the store as it stood when the
//! stage began; their structural mutations land at the flush.

use vstd::prelude::*;

use crate::commands::applies_one;
use crate::commands::applies_seq;
use crate::commands::cmd_wf;
use crate::commands::Command;
use crate::commands::CommandBuffer;
use crate::layout::layout_reads;
use crate::layout::layout_system;
use crate::layout::layout_writes;
use crate::layout::rel_layout;
use crate::query::some_conflict;
use crate::query::Query;
use crate::store::BorrowConflict;
use crate::store::ComponentKey;
use crate::store::ComponentValue;
use crate::store::Entity;
use crate::store::World;
use crate::store::WorldV;
use crate::systems::all_patches;
use crate::systems::hydrate;
use crate::systems::rel_hydration;
use crate::systems::templating_reads;
use crate::systems::templating_system;
use crate::systems::templating_writes;
use crate::transform::rel_transform;
use crate::transform::transform_reads;
use crate::transform::transform_system;
use crate::transform::transform_writes;

verus! {

/// The built-in systems a schedule can run.
#[derive(Clone, Copy, PartialEq, Eq, Structural, Debug)]
pub enum SystemKind {
    /// Patch missing baseline components (records into the buffer).
    Templating,
    /// Solve rectangles for every root's subtree (writes directly).
    Layout,
    /// Propagate screen positions depth-first (writes directly).
    Transform,
}

/// One element of the pipeline: run a system, or flush the buffer.
#[derive(Clone, Copy, PartialEq, Eq, Structural, Debug)]
pub enum Step {
    Run(SystemKind),
    Flush,
}

/// Whether running `step` against store `w` would hit a borrow conflict
/// (or borrow-identifier exhaustion) instead of running: the system's
/// declared access aliases a live borrow for writing.
pub open spec fn step_conflicts(step: Step, w: WorldV) -> bool {
    match step {
        Step::Run(SystemKind::Templating) => some_conflict(
            w,
            templating_reads(),
            templating_writes(),
        ) || w.next_borrow == u64::MAX,
        Step::Run(SystemKind::Layout) => some_conflict(w, layout_reads(), layout_writes())
            || w.next_borrow == u64::MAX,
        Step::Run(SystemKind::Transform) => some_conflict(w, transform_reads(), transform_writes())
            || w.next_borrow == u64::MAX,
        Step::Flush => false,
    }
}

/// How one step relates store and buffer before to store and buffer
/// after, when it runs without a conflict.
pub open spec fn rel_step(
    pre: WorldV,
    cb_pre: Seq<Command>,
    step: Step,
    post: WorldV,
    cb_post: Seq<Command>,
) -> bool {
    match step {
        Step::Run(SystemKind::Templating) => post == pre && cb_post == cb_pre + all_patches(
            pre,
            pre.n(),
        ),
        Step::Run(SystemKind::Layout) => rel_layout(pre, post) && cb_post == cb_pre,
        Step::Run(SystemKind::Transform) => rel_transform(pre, post) && cb_post == cb_pre,
        Step::Flush => applies_seq(pre, cb_pre, post) && cb_post == Seq::<Command>::empty(),
    }
}

/// How a whole pipeline relates store and buffer before to store and
/// buffer after: the steps apply in order.
pub open spec fn rel_steps(
    pre: WorldV,
    cb_pre: Seq<Command>,
    steps: Seq<Step>,
    post: WorldV,
    cb_post: Seq<Command>,
) -> bool
    decreases steps.len(),
{
    if steps.len() == 0 {
        post == pre && cb_post == cb_pre
    } else {
        exists|wm: WorldV, cm: Seq<Command>| #[trigger]
            rel_step(pre, cb_pre, steps[0], wm, cm) && rel_steps(wm, cm, steps.skip(1), post, cb_post)
    }
}

/// Extends a pipeline chain by one more step at its end.
pub proof fn lemma_rel_steps_snoc(
    pre: WorldV,
    cb_pre: Seq<Command>,
    steps: Seq<Step>,
    wm: WorldV,
    cm: Seq<Command>,
    s: Step,
    post: WorldV,
    cb_post: Seq<Command>,
)
    requires
        rel_steps(pre, cb_pre, steps, wm, cm),
        rel_step(wm, cm, s, post, cb_post),
    ensures
        rel_steps(pre, cb_pre, steps.push(s), post, cb_post),
    decreases steps.len(),
{
    if steps.len() == 0 {
        assert(steps.push(s)[0] == s);
        assert(steps.push(s).skip(1) =~= Seq::<Step>::empty());
        assert(rel_step(pre, cb_pre, steps.push(s)[0], post, cb_post));
        assert(rel_steps(post, cb_post, steps.push(s).skip(1), post, cb_post));
    } else {
        let (w1, c1) = choose|w1: WorldV, c1: Seq<Command>| #[trigger]
            rel_step(pre, cb_pre, steps[0], w1, c1) && rel_steps(w1, c1, steps.skip(1), wm, cm);
        lemma_rel_steps_snoc(w1, c1, steps.skip(1), wm, cm, s, post, cb_post);
        assert(steps.push(s).skip(1) =~= steps.skip(1).push(s));
        assert(steps.push(s)[0] == steps[0]);
        assert(rel_step(pre, cb_pre, steps.push(s)[0], w1, c1) && rel_steps(
            w1,
            c1,
            steps.push(s).skip(1),
            post,
            cb_post,
        ));
    }
}

/// An ordered pipeline of systems with flush points.
pub struct Schedule {
    steps: Vec<Step>,
}

impl View for Schedule {
    type V = Seq<Step>;

    closed spec fn view(&self) -> Seq<Step> {
        self.steps@
    }
}

impl Schedule {
    /// An empty pipeline.
    pub fn new() -> (s: Schedule)
        ensures
            s@ == Seq::<Step>::empty(),
    {
        Schedule { steps: Vec::new() }
    }

    /// This pipeline with one more system at its end.
    pub fn with_system(self, k: SystemKind) -> (s: Schedule)
        ensures
            s@ == self@.push(Step::Run(k)),
    {
        let mut s = self;
        s.steps.push(Step::Run(k));
        s
    }

    /// This pipeline with a flush point at its end: commands recorded by
    /// the systems before it apply before the systems after it run.
    pub fn flush(self) -> (s: Schedule)
        ensures
            s@ == self@.push(Step::Flush),
    {
        let mut s = self;
        s.steps.push(Step::Flush);
        s
    }

    /// Runs the pipeline once, in order, against the store, starting
    /// from an empty command buffer. Each system acquires its declared
    /// borrow through the registry; the first one whose access aliases a
    /// live borrow fails fast with a conflict, leaving the store as the
    /// completed steps left it (no partial execution of the conflicted
    /// step; conflicts are programming errors, per the error taxonomy).
    #[verifier::loop_isolation(false)]
    pub fn execute_seq(&self, w: &mut World) -> (r: Result<(), BorrowConflict>)
        requires
            old(w)@.wf(),
        ensures
            final(w)@.wf(),
            r is Ok ==> exists|cb: Seq<Command>| #[trigger] rel_steps(
                old(w)@,
                Seq::empty(),
                self@,
                final(w)@,
                cb,
            ),
            r is Err ==> exists|k: int, cb: Seq<Command>|
                {
                    &&& 0 <= k < self@.len()
                    &&& #[trigger] rel_steps(old(w)@, Seq::empty(), self@.take(k), final(w)@, cb)
                    &&& step_conflicts(self@[k], final(w)@)
                },
    {
        let ghost o = old(w)@;
        let mut cmd = CommandBuffer::new();
        let n = self.steps.len();
        let mut i: usize = 0;
        while i < n
            invariant
                n == self@.len(),
                i <= n,
                w@.wf(),
                cmd.wf(),
                rel_steps(o, Seq::empty(), self@.take(i as int), w@, cmd@),
            decreases n - i,
        {
            let ghost wm = w@;
            let ghost cm = cmd@;
            match self.steps[i] {
                Step::Run(SystemKind::Templating) => {
                    match templating_system(w, &mut cmd) {
                        Ok(unit) => unit,
                        Err(conflict) => {
                            proof {
                                assert(step_conflicts(self@[i as int], w@));
                            }
                            return Err(conflict);
                        },
                    }
                },
                Step::Run(SystemKind::Layout) => {
                    match layout_system(w) {
                        Ok(unit) => unit,
                        Err(conflict) => {
                            proof {
                                assert(step_conflicts(self@[i as int], w@));
                            }
                            return Err(conflict);
                        },
                    }
                },
                Step::Run(SystemKind::Transform) => {
                    match transform_system(w) {
                        Ok(unit) => unit,
                        Err(conflict) => {
                            proof {
                                assert(step_conflicts(self@[i as int], w@));
                            }
                            return Err(conflict);
                        },
                    }
                },
                Step::Flush => {
                    cmd.apply(w);
                },
            }
            proof {
                assert(rel_step(wm, cm, self@[i as int], w@, cmd@));
                lemma_rel_steps_snoc(o, Seq::empty(), self@.take(i as int), wm, cm, self@[i as int], w@, cmd@);
                assert(self@.take(i as int).push(self@[i as int]) =~= self@.take(i + 1));
            }
            i = i + 1;
        }
        proof {
            assert(self@.take(n as int) =~= self@);
        }
        Ok(())
    }
}

/// Applying deferred commands never touches the borrow registry: every
/// command form keeps the live borrows and the next identifier.
pub proof fn lemma_applies_preserves_registry(pre: WorldV, cmds: Seq<Command>, post: WorldV)
    requires
        applies_seq(pre, cmds, post),
    ensures
        post.borrows == pre.borrows,
        post.next_borrow == pre.next_borrow,
    decreases cmds.len(),
{
    if cmds.len() > 0 {
        let mid = choose|mid: WorldV| #[trigger]
            applies_one(pre, cmds[0], mid) && applies_seq(mid, cmds.skip(1), post);
        assert(mid.borrows == pre.borrows && mid.next_borrow == pre.next_borrow);
        lemma_applies_preserves_registry(mid, cmds.skip(1), post);
    }
}

/// The canonical per-tick pipeline, run directly: templating, flush,
/// asset hydration against `pending` with `resolver`, flush, then
/// layout and transform with no flush between (each later stage only
/// reads what the earlier ones wrote directly into the store). Fails
/// fast, exactly when one of the stages' declared access aliases a
/// borrow live at entry (the stages themselves leave the registry as
/// they found it), or the borrow identifiers are exhausted.
#[verifier::rlimit(100)]
pub fn standard_tick<F: Fn(Entity, ComponentValue) -> Option<Command>>(
    w: &mut World,
    pending: &Query,
    key: ComponentKey,
    resolver: F,
) -> (r: Result<(), BorrowConflict>)
    requires
        old(w)@.wf(),
        forall|e: Entity, v: ComponentValue| #[trigger] call_requires(resolver, (e, v)),
        forall|e: Entity, v: ComponentValue, c: Command|
            call_ensures(resolver, (e, v), Some(c)) ==> cmd_wf(c),
    ensures
        final(w)@.wf(),
        r is Err <==> (some_conflict(old(w)@, templating_reads(), templating_writes())
            || some_conflict(old(w)@, pending.reads@, pending.writes@) || some_conflict(
            old(w)@,
            layout_reads(),
            layout_writes(),
        ) || some_conflict(old(w)@, transform_reads(), transform_writes()) || old(w)@.next_borrow
            == u64::MAX),
        r is Ok ==> exists|w1: WorldV, hc: Seq<Command>, w2: WorldV, w3: WorldV|
            #![trigger applies_seq(w1, hc, w2), rel_layout(w2, w3)]
            {
                &&& applies_seq(old(w)@, all_patches(old(w)@, old(w)@.n()), w1)
                &&& rel_hydration(
                    w1,
                    pending.filters@,
                    pending.last_seen,
                    key,
                    resolver,
                    Seq::empty(),
                    hc,
                )
                &&& applies_seq(w1, hc, w2)
                &&& rel_layout(w2, w3)
                &&& rel_transform(w3, final(w)@)
            },
{
    let ghost o = old(w)@;
    let mut cmd = CommandBuffer::new();
    match templating_system(w, &mut cmd) {
        Ok(unit) => unit,
        Err(conflict) => {
            return Err(conflict);
        },
    }
    cmd.apply(w);
    let ghost w1 = w@;
    proof {
        lemma_applies_preserves_registry(o, all_patches(o, o.n()), w1);
        assert(w1.borrows == o.borrows && w1.next_borrow == o.next_borrow);
    }
    let mut hyd = CommandBuffer::new();
    match hydrate(w, pending, key, &mut hyd, resolver) {
        Ok(unit) => unit,
        Err(conflict) => {
            return Err(conflict);
        },
    }
    let ghost hc = hyd@;
    hyd.apply(w);
    let ghost w2 = w@;
    proof {
        lemma_applies_preserves_registry(w1, hc, w2);
        assert(w2.borrows == o.borrows && w2.next_borrow == o.next_borrow);
    }
    match layout_system(w) {
        Ok(unit) => unit,
        Err(conflict) => {
            return Err(conflict);
        },
    }
    let ghost w3 = w@;
    match transform_system(w) {
        Ok(unit) => unit,
        Err(conflict) => {
            proof {
                assert(w3.borrows == o.borrows && w3.next_borrow == o.next_borrow);
            }
            return Err(conflict);
        },
    }
    proof {
        assert(w3.borrows == o.borrows && w3.next_borrow == o.next_borrow);
        assert(applies_seq(o, all_patches(o, o.n()), w1));
        assert(rel_hydration(
            w1,
            pending.filters@,
            pending.last_seen,
            key,
            resolver,
            Seq::empty(),
            hc,
        ));
        assert(applies_seq(w1, hc, w2));
        assert(rel_layout(w2, w3));
        assert(rel_transform(w3, w@));
    }
    Ok(())
}

} // verus!
