use ui_core::cache::AssetCache;
use ui_core::cache::HandleMap;
use ui_core::commands::Command;
use ui_core::commands::CommandBuffer;
use ui_core::math::LayoutLimits;
use ui_core::query::Filter;
use ui_core::query::Query;
use ui_core::schedule::Schedule;
use ui_core::schedule::SystemKind;
use ui_core::store::ComponentKey;
use ui_core::store::ComponentValue;
use ui_core::store::Entity;
use ui_core::store::World;
use ui_core::app::handle_resize;
use ui_core::app::Frame;
use ui_core::app::Widget;
use ui_core::layout::layout_system;
use ui_core::layout::update_subtree;
use ui_core::transform::transform_system;
use ui_core::Canvas;
use ui_core::Rect;
use ui_core::Vec2;

fn v(x: i64, y: i64) -> Vec2 {
    Vec2::new(x, y)
}

fn rect(ax: i64, ay: i64, bx: i64, by: i64) -> Rect {
    Rect::new(v(ax, ay), v(bx, by))
}

fn full_schedule() -> Schedule {
    Schedule::new()
        .with_system(SystemKind::Templating)
        .flush()
        .with_system(SystemKind::Layout)
        .with_system(SystemKind::Transform)
}

#[test]
fn sat_arithmetic_saturates() {
    assert_eq!(ui_core::math::sat_add(i64::MAX, 1), i64::MAX);
    assert_eq!(ui_core::math::sat_add(i64::MIN, -1), i64::MIN);
    assert_eq!(ui_core::math::sat_add(2, 3), 5);
    assert_eq!(ui_core::math::sat_sub(i64::MIN, 1), i64::MIN);
    assert_eq!(v(3, 4).vadd(v(1, 1)), v(4, 5));
    assert_eq!(v(3, 4).vsub(v(1, 1)), v(2, 3));
    assert_eq!(v(7, -2).vclamp(v(0, 0), v(5, 5)), v(5, 0));
}

#[test]
fn rect_size_is_extent() {
    let r = rect(10, 20, 110, 70);
    assert_eq!(r.size(), v(100, 50));
    assert_eq!(Rect::default(), rect(0, 0, 0, 0));
    assert_eq!(r.translate(v(5, 5)), rect(15, 25, 115, 75));
}

#[test]
fn spawn_set_get_roundtrip() {
    let mut w = World::new();
    let e = w.spawn();
    assert!(w.is_alive(e));
    assert!(w.set(e, ComponentKey::Payload, ComponentValue::Int(7)).is_ok());
    assert_eq!(w.get(e, ComponentKey::Payload), Some(ComponentValue::Int(7)));
    assert_eq!(w.get(e, ComponentKey::Size), None);
}

#[test]
fn set_on_missing_entity_fails() {
    let mut w = World::new();
    let ghostly = Entity { id: 42 };
    assert!(w.set(ghostly, ComponentKey::Payload, ComponentValue::Int(1)).is_err());
    let e = w.spawn();
    w.despawn(e).unwrap();
    assert!(w.set(e, ComponentKey::Payload, ComponentValue::Int(1)).is_err());
    assert!(w.despawn(e).is_err());
}

#[test]
fn despawn_removes_whole_subtree() {
    let mut w = World::new();
    let root = w.spawn();
    let child = w.spawn_child(root).unwrap();
    let grandchild = w.spawn_child(child).unwrap();
    let sibling = w.spawn_child(root).unwrap();
    w.despawn(child).unwrap();
    assert!(w.is_alive(root));
    assert!(w.is_alive(sibling));
    assert!(!w.is_alive(child));
    assert!(!w.is_alive(grandchild));
    let kids = w.children(root);
    assert_eq!(kids.len(), 1);
    assert_eq!(kids[0], sibling);
}

#[test]
fn no_query_yields_a_despawned_identity() {
    let mut w = World::new();
    let root = w.spawn();
    let child = w.spawn_child(root).unwrap();
    let q = Query::new(Vec::new(), Vec::new());
    assert_eq!(q.matching(&w).len(), 2);
    w.despawn(child).unwrap();
    let survivors = q.matching(&w);
    assert_eq!(survivors.len(), 1);
    assert_eq!(survivors[0], root);
    w.despawn(root).unwrap();
    assert!(q.matching(&w).is_empty());
}

#[test]
fn filters_select_entities() {
    let mut w = World::new();
    let a = w.spawn();
    let b = w.spawn();
    w.set(a, ComponentKey::Payload, ComponentValue::Int(1)).unwrap();
    let with_payload = Query::new(Vec::new(), Vec::new()).with_filter(Filter::With(
        ComponentKey::Payload,
    ));
    let without_payload = Query::new(Vec::new(), Vec::new()).with_filter(Filter::Without(
        ComponentKey::Payload,
    ));
    assert_eq!(with_payload.matching(&w), vec![a]);
    assert_eq!(without_payload.matching(&w), vec![b]);
}

#[test]
fn changed_filter_sees_only_new_writes() {
    let mut w = World::new();
    let a = w.spawn();
    w.set(a, ComponentKey::Payload, ComponentValue::Int(1)).unwrap();
    let mut q = Query::new(Vec::new(), Vec::new()).with_filter(Filter::Changed(
        ComponentKey::Payload,
    ));
    assert_eq!(q.matching(&w), vec![a]);
    q.observe(&w);
    assert!(q.matching(&w).is_empty());
    w.set(a, ComponentKey::Payload, ComponentValue::Int(2)).unwrap();
    assert_eq!(q.matching(&w), vec![a]);
}

#[test]
fn dedup_write_keeps_change_ticks_quiet() {
    let mut w = World::new();
    let a = w.spawn();
    w.set(a, ComponentKey::Payload, ComponentValue::Int(5)).unwrap();
    let mut q = Query::new(Vec::new(), Vec::new()).with_filter(Filter::Changed(
        ComponentKey::Payload,
    ));
    q.observe(&w);
    w.update_dedup(a, ComponentKey::Payload, ComponentValue::Int(5)).unwrap();
    assert!(q.matching(&w).is_empty());
    w.update_dedup(a, ComponentKey::Payload, ComponentValue::Int(6)).unwrap();
    assert_eq!(q.matching(&w), vec![a]);
}

#[test]
fn overlapping_write_borrows_conflict() {
    let mut w = World::new();
    let writer = Query::new(vec![ComponentKey::Rect], vec![ComponentKey::ScreenPosition]);
    let reader_clash = Query::new(vec![ComponentKey::ScreenPosition], Vec::new());
    let writer_clash = Query::new(Vec::new(), vec![ComponentKey::Rect]);
    let unrelated = Query::new(vec![ComponentKey::Payload], vec![ComponentKey::Size]);

    let token = w.borrow_query(&writer).unwrap();
    assert!(w.borrow_query(&reader_clash).is_err());
    assert!(w.borrow_query(&writer_clash).is_err());
    let other = w.borrow_query(&unrelated).unwrap();
    w.release_query(token);
    let again = w.borrow_query(&reader_clash).unwrap();
    w.release_query(again);
    w.release_query(other);
}

#[test]
fn read_only_borrows_share() {
    let mut w = World::new();
    let reader = Query::new(vec![ComponentKey::Rect], Vec::new());
    let t1 = w.borrow_query(&reader).unwrap();
    let t2 = w.borrow_query(&reader).unwrap();
    w.release_query(t1);
    w.release_query(t2);
}

#[test]
fn command_buffer_applies_in_order_and_skips_stale() {
    let mut w = World::new();
    let a = w.spawn();
    let b = w.spawn();
    let mut cmd = CommandBuffer::new();
    cmd.set(a, ComponentKey::Payload, ComponentValue::Int(1));
    cmd.set(a, ComponentKey::Payload, ComponentValue::Int(2));
    cmd.despawn(b);
    cmd.set(b, ComponentKey::Payload, ComponentValue::Int(9));
    cmd.apply(&mut w);
    assert_eq!(w.get(a, ComponentKey::Payload), Some(ComponentValue::Int(2)));
    assert!(!w.is_alive(b));
    assert_eq!(cmd.len(), 0);
}

#[test]
fn set_missing_never_clobbers() {
    let mut w = World::new();
    let a = w.spawn();
    w.set(a, ComponentKey::Payload, ComponentValue::Int(7)).unwrap();
    let mut cmd = CommandBuffer::new();
    cmd.set_missing(a, ComponentKey::Payload, ComponentValue::Int(0));
    cmd.set_missing(a, ComponentKey::Size, ComponentValue::Vec2(v(3, 3)));
    cmd.apply(&mut w);
    assert_eq!(w.get(a, ComponentKey::Payload), Some(ComponentValue::Int(7)));
    assert_eq!(w.get(a, ComponentKey::Size), Some(ComponentValue::Vec2(v(3, 3))));
}

#[test]
fn remove_component_is_idempotent() {
    let mut w = World::new();
    let a = w.spawn();
    w.set(a, ComponentKey::Payload, ComponentValue::Int(7)).unwrap();
    w.remove(a, ComponentKey::Payload).unwrap();
    assert_eq!(w.get(a, ComponentKey::Payload), None);
    w.remove(a, ComponentKey::Payload).unwrap();
    assert_eq!(w.get(a, ComponentKey::Payload), None);
}

#[test]
fn layout_fills_and_clamps() {
    let mut w = World::new();
    let root = w.spawn();
    w.set(root, ComponentKey::Rect, ComponentValue::Rect(rect(0, 0, 800, 600))).unwrap();
    let filler = w.spawn_child(root).unwrap();
    let sized = w.spawn_child(root).unwrap();
    let oversized = w.spawn_child(root).unwrap();
    w.set(sized, ComponentKey::Size, ComponentValue::Vec2(v(100, 50))).unwrap();
    w.set(oversized, ComponentKey::Size, ComponentValue::Vec2(v(9000, 9000))).unwrap();
    layout_system(&mut w).unwrap();
    assert_eq!(
        w.get(filler, ComponentKey::Rect),
        Some(ComponentValue::Rect(rect(0, 0, 800, 600)))
    );
    assert_eq!(
        w.get(sized, ComponentKey::Rect),
        Some(ComponentValue::Rect(rect(0, 0, 100, 50)))
    );
    assert_eq!(
        w.get(oversized, ComponentKey::Rect),
        Some(ComponentValue::Rect(rect(0, 0, 800, 600)))
    );
}

#[test]
fn update_subtree_honors_limits() {
    let mut w = World::new();
    let root = w.spawn();
    w.set(root, ComponentKey::Rect, ComponentValue::Rect(rect(0, 0, 640, 480))).unwrap();
    let child = w.spawn_child(root).unwrap();
    w.set(child, ComponentKey::Size, ComponentValue::Vec2(v(-5, 5000))).unwrap();
    let r = update_subtree(
        &mut w,
        child,
        LayoutLimits { min: v(0, 0), max: v(640, 480) },
    );
    assert_eq!(r, rect(0, 0, 0, 480));
}

#[test]
fn every_rect_stays_valid_after_layout() {
    let mut w = World::new();
    let root = w.spawn();
    w.set(root, ComponentKey::Rect, ComponentValue::Rect(rect(0, 0, 300, 200))).unwrap();
    let a = w.spawn_child(root).unwrap();
    let b = w.spawn_child(a).unwrap();
    w.set(b, ComponentKey::Size, ComponentValue::Vec2(v(50, 5000))).unwrap();
    layout_system(&mut w).unwrap();
    for e in [root, a, b] {
        match w.get(e, ComponentKey::Rect) {
            Some(ComponentValue::Rect(r)) => {
                assert!(r.min.x <= r.max.x && r.min.y <= r.max.y);
            }
            other => panic!("missing rectangle: {other:?}"),
        }
    }
}

#[test]
fn second_layout_pass_is_silent() {
    let mut w = World::new();
    let root = w.spawn();
    w.set(root, ComponentKey::Rect, ComponentValue::Rect(rect(0, 0, 800, 600))).unwrap();
    let child = w.spawn_child(root).unwrap();
    let grand = w.spawn_child(child).unwrap();
    w.set(grand, ComponentKey::Size, ComponentValue::Vec2(v(10, 10))).unwrap();
    layout_system(&mut w).unwrap();
    let first_child = w.get(child, ComponentKey::Rect);
    let first_grand = w.get(grand, ComponentKey::Rect);
    let tick_after_first = w.current_tick();
    let mut changed = Query::new(Vec::new(), Vec::new()).with_filter(Filter::Changed(
        ComponentKey::Rect,
    ));
    changed.observe(&w);
    layout_system(&mut w).unwrap();
    assert_eq!(w.get(child, ComponentKey::Rect), first_child);
    assert_eq!(w.get(grand, ComponentKey::Rect), first_grand);
    assert_eq!(w.current_tick(), tick_after_first);
    assert!(changed.matching(&w).is_empty());
}

#[test]
fn transform_adds_parent_position() {
    let mut w = World::new();
    let root = w.spawn();
    let child = w.spawn_child(root).unwrap();
    let grand = w.spawn_child(child).unwrap();
    for (e, local) in [(root, v(5, 5)), (child, v(10, 10)), (grand, v(1, 2))] {
        w.set(e, ComponentKey::LocalPosition, ComponentValue::Vec2(local)).unwrap();
        w.set(e, ComponentKey::ScreenPosition, ComponentValue::Vec2(v(0, 0))).unwrap();
    }
    transform_system(&mut w).unwrap();
    assert_eq!(
        w.get(root, ComponentKey::ScreenPosition),
        Some(ComponentValue::Vec2(v(5, 5)))
    );
    assert_eq!(
        w.get(child, ComponentKey::ScreenPosition),
        Some(ComponentValue::Vec2(v(15, 15)))
    );
    assert_eq!(
        w.get(grand, ComponentKey::ScreenPosition),
        Some(ComponentValue::Vec2(v(16, 17)))
    );
}

#[test]
fn templating_patches_incomplete_entities() {
    let mut w = World::new();
    let bare = w.spawn();
    let dressed = w.spawn();
    w.set(dressed, ComponentKey::LocalPosition, ComponentValue::Vec2(v(3, 3))).unwrap();
    let mut cmd = CommandBuffer::new();
    ui_core::systems::templating_system(&mut w, &mut cmd).unwrap();
    cmd.apply(&mut w);
    assert_eq!(
        w.get(bare, ComponentKey::Rect),
        Some(ComponentValue::Rect(rect(0, 0, 0, 0)))
    );
    assert_eq!(
        w.get(bare, ComponentKey::LocalPosition),
        Some(ComponentValue::Vec2(v(0, 0)))
    );
    assert_eq!(
        w.get(dressed, ComponentKey::LocalPosition),
        Some(ComponentValue::Vec2(v(3, 3)))
    );
    assert_eq!(
        w.get(dressed, ComponentKey::ScreenPosition),
        Some(ComponentValue::Vec2(v(0, 0)))
    );
}

#[test]
fn hydrate_records_one_command_per_match() {
    let mut w = World::new();
    let a = w.spawn();
    let b = w.spawn();
    w.set(a, ComponentKey::Payload, ComponentValue::Int(10)).unwrap();
    w.set(b, ComponentKey::Payload, ComponentValue::Int(20)).unwrap();
    let q = Query::new(Vec::new(), Vec::new()).with_filter(Filter::With(ComponentKey::Payload));
    let mut cmd = CommandBuffer::new();
    ui_core::systems::hydrate(
        &mut w,
        &q,
        ComponentKey::Payload,
        &mut cmd,
        |e: Entity, val: ComponentValue| match val {
            ComponentValue::Int(n) => Some(Command::Write(
                e,
                ComponentKey::Payload,
                ComponentValue::Int(n + 1),
            )),
            _ => None,
        },
    )
    .unwrap();
    assert_eq!(cmd.len(), 2);
    cmd.apply(&mut w);
    assert_eq!(w.get(a, ComponentKey::Payload), Some(ComponentValue::Int(11)));
    assert_eq!(w.get(b, ComponentKey::Payload), Some(ComponentValue::Int(21)));
}

#[test]
fn hydrate_visits_matches_in_ascending_order() {
    let mut w = World::new();
    let a = w.spawn();
    let b = w.spawn();
    let sink = w.spawn();
    w.set(a, ComponentKey::Payload, ComponentValue::Int(100)).unwrap();
    w.set(b, ComponentKey::Payload, ComponentValue::Int(200)).unwrap();
    let q = Query::new(Vec::new(), Vec::new()).with_filter(Filter::With(ComponentKey::Payload));
    let mut cmd = CommandBuffer::new();
    // both matches write the same slot: the later (larger id) wins
    ui_core::systems::hydrate(
        &mut w,
        &q,
        ComponentKey::Payload,
        &mut cmd,
        move |_e: Entity, val: ComponentValue| match val {
            ComponentValue::Int(n) => Some(Command::Write(
                sink,
                ComponentKey::Payload,
                ComponentValue::Int(n),
            )),
            _ => None,
        },
    )
    .unwrap();
    assert_eq!(cmd.len(), 2);
    cmd.apply(&mut w);
    assert_eq!(w.get(sink, ComponentKey::Payload), Some(ComponentValue::Int(200)));
}

#[test]
fn cache_round_trip_and_stale_handle() {
    let mut cache: AssetCache<String> = AssetCache::new();
    let h1 = cache.insert(String::from("ab"));
    let h2 = cache.insert(String::from("cd"));
    assert_eq!(cache.get(&h1), Some(&String::from("ab")));
    assert_eq!(cache.get(&h2), Some(&String::from("cd")));
    assert_eq!(cache.remove(&h1), Some(String::from("ab")));
    assert_eq!(cache.get(&h1), None);
    assert_eq!(cache.get(&h2), Some(&String::from("cd")));
    let h3 = cache.insert(String::from("ef"));
    assert_ne!(h3.id(), h1.id());
}

#[test]
fn handle_map_derives_at_most_once() {
    let mut cache: AssetCache<i64> = AssetCache::new();
    let h = cache.insert(5);
    let other = cache.insert(6);
    let mut derived: HandleMap<i64, i64> = HandleMap::new();
    let mut calls = 0;
    derived.or_insert_with(&h, || {
        calls += 1;
        50
    });
    derived.or_insert_with(&h, || {
        calls += 1;
        99
    });
    assert_eq!(calls, 1);
    assert_eq!(derived.get(&h), Some(&50));
    assert_eq!(derived.get(&other), None);
    derived.insert(&other, 60);
    assert_eq!(derived.get(&other), Some(&60));
    *derived.get_mut(&other) = 61;
    assert_eq!(derived.get(&other), Some(&61));
}

struct Leaf {
    local: Vec2,
}

impl Widget<i64> for Leaf {
    fn mount(self, frame: &mut Frame<i64>, id: Entity) {
        frame
            .world
            .set(id, ComponentKey::LocalPosition, ComponentValue::Vec2(self.local))
            .unwrap();
    }
}

#[test]
fn end_to_end_tick_and_resize() {
    let mut frame: Frame<i64> = Frame::new();
    let root = frame.new_root(Canvas { size: v(800, 600), root: Leaf { local: v(10, 10) } });
    let schedule = full_schedule();

    // one full tick
    schedule.execute_seq(&mut frame.world).unwrap();
    let kids = frame.world.children(root);
    assert_eq!(kids.len(), 1);
    let child = kids[0];
    assert_eq!(
        frame.world.get(child, ComponentKey::ScreenPosition),
        Some(ComponentValue::Vec2(v(10, 10)))
    );
    assert_eq!(
        frame.world.get(child, ComponentKey::Rect),
        Some(ComponentValue::Rect(rect(0, 0, 800, 600)))
    );
    assert!(frame.world.children(child).is_empty());

    // resize the window, tick again
    handle_resize(&mut frame.world, root, v(400, 300)).unwrap();
    schedule.execute_seq(&mut frame.world).unwrap();
    assert_eq!(
        frame.world.get(root, ComponentKey::Rect),
        Some(ComponentValue::Rect(rect(0, 0, 400, 300)))
    );
    assert_eq!(
        frame.world.get(child, ComponentKey::LocalPosition),
        Some(ComponentValue::Vec2(v(10, 10)))
    );
    assert_eq!(
        frame.world.get(child, ComponentKey::Rect),
        Some(ComponentValue::Rect(rect(0, 0, 400, 300)))
    );
}

#[test]
fn new_root_returns_fresh_live_identity() {
    let mut frame: Frame<i64> = Frame::new();
    let first = frame.new_root(Leaf { local: v(0, 0) });
    assert_eq!(first.id, 0);
    assert!(frame.world.is_alive(first));
    let second = frame.new_root(Leaf { local: v(1, 1) });
    assert_ne!(second, first);
    assert!(frame.world.is_alive(second));
}

#[test]
fn canvas_mount_writes_baseline_and_one_child() {
    let mut frame: Frame<i64> = Frame::new();
    let root = frame.new_root(Canvas { size: v(800, 600), root: Leaf { local: v(10, 10) } });
    assert_eq!(
        frame.world.get(root, ComponentKey::Rect),
        Some(ComponentValue::Rect(rect(0, 0, 800, 600)))
    );
    assert_eq!(
        frame.world.get(root, ComponentKey::ScreenPosition),
        Some(ComponentValue::Vec2(v(0, 0)))
    );
    assert_eq!(
        frame.world.get(root, ComponentKey::LocalPosition),
        Some(ComponentValue::Vec2(v(0, 0)))
    );
    let kids = frame.world.children(root);
    assert_eq!(kids.len(), 1);
    assert_eq!(frame.world.parent(kids[0]), Some(root));
    // a negative extent is clamped to an empty, still valid rectangle
    let shrunk = frame.new_root(Canvas { size: v(-4, 7), root: Leaf { local: v(0, 0) } });
    assert_eq!(
        frame.world.get(shrunk, ComponentKey::Rect),
        Some(ComponentValue::Rect(rect(0, 0, 0, 7)))
    );
}

#[test]
fn systems_fail_fast_under_conflicting_borrow() {
    let mut w = World::new();
    let root = w.spawn();
    w.set(root, ComponentKey::LocalPosition, ComponentValue::Vec2(v(3, 4))).unwrap();
    w.set(root, ComponentKey::ScreenPosition, ComponentValue::Vec2(v(9, 9))).unwrap();
    let writer = Query::new(Vec::new(), vec![ComponentKey::ScreenPosition]);
    let token = w.borrow_query(&writer).unwrap();

    // the transform pass would write screen positions: it must fail
    // fast and touch nothing
    assert!(transform_system(&mut w).is_err());
    assert_eq!(
        w.get(root, ComponentKey::ScreenPosition),
        Some(ComponentValue::Vec2(v(9, 9)))
    );
    // templating reads screen positions: it conflicts too, and records
    // nothing
    let mut cmd = CommandBuffer::new();
    assert!(ui_core::systems::templating_system(&mut w, &mut cmd).is_err());
    assert_eq!(cmd.len(), 0);
    // layout declares no access to screen positions: it shares fine
    assert!(layout_system(&mut w).is_ok());
    // the pipeline aborts at its first conflicting step
    assert!(full_schedule().execute_seq(&mut w).is_err());

    w.release_query(token);
    assert!(transform_system(&mut w).is_ok());
    assert_eq!(
        w.get(root, ComponentKey::ScreenPosition),
        Some(ComponentValue::Vec2(v(3, 4)))
    );
    assert!(full_schedule().execute_seq(&mut w).is_ok());
}

#[test]
fn spawn_commands_defer_structural_growth() {
    let mut w = World::new();
    let root = w.spawn();
    let mut cmd = CommandBuffer::new();
    cmd.spawn(None);
    cmd.spawn(Some(root));
    cmd.spawn(Some(Entity { id: 77 }));
    assert_eq!(w.entity_count(), 1);
    cmd.apply(&mut w);
    // one fresh root, one fresh child of `root`; the stale parent was
    // skipped
    assert_eq!(w.entity_count(), 3);
    let fresh_root = Entity { id: 1 };
    let fresh_child = Entity { id: 2 };
    assert!(w.is_alive(fresh_root));
    assert_eq!(w.parent(fresh_root), None);
    assert!(w.is_alive(fresh_child));
    assert_eq!(w.parent(fresh_child), Some(root));
    assert_eq!(w.children(root), vec![fresh_child]);
}

#[test]
fn modify_if_present_transforms_in_place() {
    let mut cache: AssetCache<i64> = AssetCache::new();
    let h = cache.insert(0);
    let absent = cache.insert(1);
    let mut derived: HandleMap<i64, i64> = HandleMap::new();
    derived.insert(&h, 21);
    derived.modify_if_present(&h, |v| v * 2);
    assert_eq!(derived.get(&h), Some(&42));
    derived.modify_if_present(&absent, |_| unreachable!());
    assert_eq!(derived.get(&absent), None);
}

#[test]
fn standard_tick_runs_the_canonical_pipeline() {
    let mut frame: Frame<i64> = Frame::new();
    let root = frame.new_root(Canvas { size: v(640, 480), root: Leaf { local: v(7, 8) } });
    let pending = Query::new(Vec::new(), Vec::new()).with_filter(Filter::Changed(
        ComponentKey::Payload,
    ));
    ui_core::schedule::standard_tick(
        &mut frame.world,
        &pending,
        ComponentKey::Payload,
        |_e: Entity, _v: ComponentValue| None,
    )
    .unwrap();
    let child = frame.world.children(root)[0];
    assert_eq!(
        frame.world.get(child, ComponentKey::ScreenPosition),
        Some(ComponentValue::Vec2(v(7, 8)))
    );
    assert_eq!(
        frame.world.get(child, ComponentKey::Rect),
        Some(ComponentValue::Rect(rect(0, 0, 640, 480)))
    );
    // a live conflicting borrow stops the whole tick
    let writer = Query::new(Vec::new(), vec![ComponentKey::Rect]);
    let token = frame.world.borrow_query(&writer).unwrap();
    let res = ui_core::schedule::standard_tick(
        &mut frame.world,
        &pending,
        ComponentKey::Payload,
        |_e: Entity, _v: ComponentValue| None,
    );
    assert!(res.is_err());
    frame.world.release_query(token);
}

#[test]
fn app_shell_constructs() {
    let a = ui_core::App::new();
    let b = ui_core::App::default();
    let _ = (a, b);
}

#[test]
fn handle_map_or_insert_variants() {
    let mut cache: AssetCache<i64> = AssetCache::new();
    let h = cache.insert(1);
    let mut derived: HandleMap<i64, i64> = HandleMap::new();
    derived.or_insert(&h, 10);
    derived.or_insert(&h, 99);
    assert_eq!(derived.get(&h), Some(&10));

    let other = cache.insert(2);
    let mut key_calls = 0;
    derived.or_insert_with_key(&other, |id| {
        key_calls += 1;
        id as i64 * 100
    });
    derived.or_insert_with_key(&other, |_| unreachable!());
    assert_eq!(key_calls, 1);
    assert_eq!(derived.get(&other), Some(&(other.id() as i64 * 100)));
}
