use chunk_stream::{ChunkPos, Interleave, IntoInterleave, IntoUnique, Unique};

#[test]
fn interleave_takes_in_turn() {
    let mut it = vec![vec![1, 2, 3], vec![4], vec![5, 6]].interleave();
    let mut out = Vec::new();
    while let Some(x) = it.next() {
        out.push(x);
    }
    assert_eq!(out, vec![1, 4, 5, 2, 6, 3]);
    assert_eq!(it.next(), None);
}

#[test]
fn interleave_skips_empty_sources() {
    let mut it = Interleave::new(vec![vec![], vec![7, 8], vec![], vec![9]]);
    assert_eq!(it.collect_all(), vec![7, 9, 8]);
    let mut none: Interleave<u8> = Interleave::new(vec![]);
    assert_eq!(none.next(), None);
}

#[test]
fn interleave_first_rounds_are_fair() {
    // Three sources of lengths 5, 1, 3: the first 3 * 2 items hold the first
    // two items of every source that has them.
    let a: Vec<u32> = (0..5).collect();
    let b: Vec<u32> = vec![100];
    let c: Vec<u32> = vec![200, 201, 202];
    let out = Interleave::new(vec![a, b, c]).collect_all();
    let first = &out[..6];
    for x in [0, 1, 100, 200, 201] {
        assert!(first.contains(&x));
    }
    assert_eq!(out.len(), 9);
}

fn p(x: i32, z: i32) -> ChunkPos {
    ChunkPos::new(x, z)
}

#[test]
fn unique_keeps_first_occurrences() {
    let items = vec![p(1, 1), p(2, 2), p(1, 1), p(3, 3), p(2, 2), p(4, 4)];
    let mut u = items.unique();
    let mut out = Vec::new();
    while let Some(x) = u.next() {
        out.push(x);
    }
    assert_eq!(out, vec![p(1, 1), p(2, 2), p(3, 3), p(4, 4)]);
}

#[test]
fn unique_on_empty_and_all_equal() {
    let mut u = Unique::new(vec![]);
    assert_eq!(u.next(), None);
    let mut u = Unique::new(vec![p(0, 0); 5]);
    assert_eq!(u.collect_all(), vec![p(0, 0)]);
}
