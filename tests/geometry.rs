use chunk_stream::{viewable_chunks, ChunkPos, ChunkView};

fn ring(c: ChunkPos, p: ChunkPos) -> i32 {
    (p.x - c.x).abs().max((p.z - c.z).abs())
}

#[test]
fn viewable_radius_zero_holds_margin_disc() {
    let c = ChunkPos::new(3, -4);
    let v = ChunkView::new(c, 0);
    let got = viewable_chunks(v);
    // Reach is 0 + 2: every chunk with dx^2 + dz^2 <= 4.
    assert_eq!(got.len(), 13);
    assert_eq!(got[0], c);
    for dx in -3i32..=3 {
        for dz in -3i32..=3 {
            let p = ChunkPos::new(c.x + dx, c.z + dz);
            assert_eq!(got.contains(&p), dx * dx + dz * dz <= 4);
        }
    }
}

#[test]
fn viewable_runs_outward_without_repeats() {
    let c = ChunkPos::new(-7, 11);
    let got = viewable_chunks(ChunkView::new(c, 5));
    for w in got.windows(2) {
        assert!(ring(c, w[0]) <= ring(c, w[1]));
    }
    for (i, a) in got.iter().enumerate() {
        for b in &got[i + 1..] {
            assert_ne!(a, b);
        }
    }
    let v = ChunkView::new(c, 5);
    for dx in -8i32..=8 {
        for dz in -8i32..=8 {
            let p = ChunkPos::new(c.x + dx, c.z + dz);
            assert_eq!(got.contains(&p), v.contains(p));
        }
    }
}

#[test]
fn view_contains_uses_margin() {
    let v = ChunkView::new(ChunkPos::new(0, 0), 2);
    assert!(v.contains(ChunkPos::new(4, 0)));
    assert!(v.contains(ChunkPos::new(2, 3)));
    assert!(!v.contains(ChunkPos::new(3, 3)));
    assert!(!v.contains(ChunkPos::new(5, 0)));
}

#[test]
fn distance_squared_exact() {
    let a = ChunkPos::new(1, 2);
    let b = ChunkPos::new(-2, 6);
    assert_eq!(a.distance_squared(&b), 25);
    let far = ChunkPos::new(i32::MIN, i32::MIN);
    let near = ChunkPos::new(i32::MAX, i32::MAX);
    let d = (u32::MAX as u128) * (u32::MAX as u128);
    assert_eq!(far.distance_squared(&near), 2 * d);
}

#[test]
fn from_block_floors() {
    assert_eq!(ChunkPos::from_block(0, 15), ChunkPos::new(0, 0));
    assert_eq!(ChunkPos::from_block(16, -1), ChunkPos::new(1, -1));
    assert_eq!(ChunkPos::from_block(-16, -17), ChunkPos::new(-1, -2));
}
