use chunk_stream::{
    aggregate, is_demanded, priority, ChunkData, ChunkPos, ChunkStore, ChunkView, GenOutcome, ResidentChunk,
    SetClientLocation, TargetPosition, World, PRIORITY_SCALE,
};

fn p(x: i32, z: i32) -> ChunkPos {
    ChunkPos::new(x, z)
}

fn done(pos: ChunkPos) -> GenOutcome {
    GenOutcome::Done(ResidentChunk { pos, data: ChunkData::generate_base() })
}

fn requested(r: &chunk_stream::TickReport, pos: ChunkPos) -> usize {
    r.requests.iter().filter(|d| d.pos == pos).count()
}

#[test]
fn shared_chunk_requested_once() {
    let mut w = World::new(100_000);
    let views = vec![ChunkView::new(p(-25, 0), 25), ChunkView::new(p(25, 0), 25)];
    let r = w.run_tick(&views, vec![]);
    assert_eq!(requested(&r, p(0, 0)), 1);
    for (i, a) in r.requests.iter().enumerate() {
        for b in &r.requests[i + 1..] {
            assert_ne!(a.pos, b.pos);
        }
    }
    // Still being generated: not requested again.
    let r2 = w.run_tick(&views, vec![]);
    assert_eq!(requested(&r2, p(0, 0)), 0);
    let r3 = w.run_tick(&views, vec![done(p(0, 0))]);
    assert_eq!(requested(&r3, p(0, 0)), 0);
    assert!(w.store().contains(p(0, 0)));
    assert!(views.iter().all(|v| v.contains(p(0, 0))));
}

#[test]
fn stale_result_discarded() {
    let mut w = World::new(1000);
    let near = ChunkView::new(p(10, 10), 2);
    let r = w.run_tick(&vec![near], vec![]);
    // Reach 2 + 2: (14, 10) is in view at radius 2.
    assert_eq!(requested(&r, p(14, 10)), 1);
    let shrunk = ChunkView::new(p(10, 10), 0);
    w.run_tick(&vec![shrunk], vec![done(p(14, 10)), done(p(10, 10))]);
    assert!(!w.store().contains(p(14, 10)));
    assert!(w.store().contains(p(10, 10)));
    assert!(!w.is_generating(p(14, 10)));
}

#[test]
fn relocation_waits_for_destination() {
    let mut w = World::new(0);
    let target = TargetPosition { x_bits: 1, y_bits: 2, z_bits: 3 };
    w.set_location(42, 7, target, p(3, 3));
    let views = vec![ChunkView::new(p(3, 3), 1)];
    for _ in 0..4 {
        let r = w.run_tick(&views, vec![]);
        assert!(r.commits.is_empty());
    }
    let r = w.run_tick(&views, vec![done(p(3, 3))]);
    assert_eq!(r.commits.len(), 1);
    assert_eq!(r.commits[0].0, 42);
    assert_eq!(r.commits[0].1.location, 7);
    assert_eq!(r.commits[0].1.position, target);
    let r = w.run_tick(&views, vec![]);
    assert!(r.commits.is_empty());
}

#[test]
fn failed_generation_is_requested_again() {
    let mut w = World::new(1000);
    let views = vec![ChunkView::new(p(7, 7), 0)];
    let r = w.run_tick(&views, vec![]);
    assert_eq!(requested(&r, p(7, 7)), 1);
    let r = w.run_tick(&views, vec![GenOutcome::Failed(p(7, 7))]);
    assert!(!w.store().contains(p(7, 7)));
    assert_eq!(requested(&r, p(7, 7)), 1);
    assert!(w.is_generating(p(7, 7)));
}

#[test]
fn batch_limit_caps_requests() {
    let mut w = World::new(5);
    let views = vec![ChunkView::new(p(0, 0), 3)];
    let r = w.run_tick(&views, vec![]);
    assert_eq!(r.requests.len(), 5);
    assert_eq!(r.requests[0].pos, p(0, 0));
    assert_eq!(w.generating_count(), 5);
    let r = w.run_tick(&views, vec![]);
    assert_eq!(r.requests.len(), 5);
    assert_eq!(w.generating_count(), 10);
}

#[test]
fn eviction_follows_demand_and_pins() {
    let mut w = World::new(1000);
    let here = vec![ChunkView::new(p(0, 0), 0)];
    w.run_tick(&here, vec![]);
    w.run_tick(&here, vec![done(p(0, 0)), done(p(1, 0))]);
    assert!(w.store().contains(p(0, 0)));
    assert!(w.store().contains(p(1, 0)));
    let mut pinned = ChunkData::generate_base();
    pinned.set_viewed(true);
    w.run_tick(&here, vec![GenOutcome::Done(ResidentChunk { pos: p(2, 0), data: pinned })]);
    let away = vec![ChunkView::new(p(100, 100), 0)];
    w.run_tick(&away, vec![]);
    assert!(!w.store().contains(p(0, 0)));
    assert!(!w.store().contains(p(1, 0)));
    assert!(w.store().contains(p(2, 0)));
    // An empty demand snapshot keeps only pinned chunks.
    w.run_tick(&vec![], vec![]);
    assert_eq!(w.store().len(), 1);
}

#[test]
fn block_edit_updates_resident_chunk() {
    let mut w = World::new(1000);
    let views = vec![ChunkView::new(p(-1, 0), 0)];
    w.run_tick(&views, vec![]);
    w.run_tick(&views, vec![done(p(-1, 0))]);
    assert!(w.set_block(-16, -1, 15, 1));
    assert_eq!(w.store().get(p(-1, 0)).unwrap().block(0, 63, 15), 1);
    assert!(!w.set_block(-16, 0, 15, 1));
    assert!(!w.set_block(500, -1, 0, 1));
}

#[test]
fn priority_inverse_square() {
    let views = vec![ChunkView::new(p(0, 0), 4), ChunkView::new(p(10, 0), 4)];
    assert_eq!(priority(&views, p(0, 0)), PRIORITY_SCALE);
    assert_eq!(priority(&views, p(2, 0)), PRIORITY_SCALE / 5);
    assert_eq!(priority(&views, p(9, 1)), PRIORITY_SCALE / 3);
}

#[test]
fn aggregate_skips_resident_and_in_flight() {
    let mut store = ChunkStore::new();
    store.insert(p(0, 0), ChunkData::generate_base());
    let views = vec![ChunkView::new(p(0, 0), 0)];
    let in_flight = vec![p(1, 0)];
    let out = aggregate(&views, &store, &in_flight, 100, 9);
    assert_eq!(out.len(), 11);
    assert!(out.iter().all(|d| d.pos != p(0, 0) && d.pos != p(1, 0) && d.tick == 9));
    assert!(out.iter().all(|d| is_demanded(&views, d.pos)));
    assert!(!is_demanded(&views, p(2, 2)));
}

#[test]
fn client_location_queue() {
    let mut store = ChunkStore::new();
    let mut q = SetClientLocation::new();
    let t = TargetPosition { x_bits: 0, y_bits: 0, z_bits: 0 };
    q.set_location(1, 10, t, p(0, 0));
    q.set_location(2, 10, t, p(5, 5));
    q.set_location(1, 11, t, p(0, 0));
    assert!(q.process(&store).is_empty());
    store.insert(p(0, 0), ChunkData::generate_base());
    let c = q.process(&store);
    assert_eq!(c.len(), 1);
    assert_eq!(c[0].0, 1);
    assert_eq!(c[0].1.location, 11);
    q.remove_client(2);
    store.insert(p(5, 5), ChunkData::generate_base());
    assert!(q.process(&store).is_empty());
}

#[test]
fn removed_client_never_commits() {
    let mut w = World::new(100);
    let t = TargetPosition { x_bits: 5, y_bits: 6, z_bits: 7 };
    w.set_location(9, 1, t, p(0, 0));
    w.remove_client(9);
    let views = vec![ChunkView::new(p(0, 0), 0)];
    w.run_tick(&views, vec![]);
    let r = w.run_tick(&views, vec![done(p(0, 0))]);
    assert!(w.store().contains(p(0, 0)));
    assert!(r.commits.is_empty());
}
