use chunk_stream::terrain::{AIR, BEDROCK, GRASS_BLOCK, STONE};
use chunk_stream::{synthesize, ChunkData, ChunkPos, GenError, OverrideRecord, StoredBlock};

fn row(x: i64, y: i64, z: i64, block: i64) -> StoredBlock {
    StoredBlock { x, y, z, block }
}

#[test]
fn base_terrain_layers() {
    let c = ChunkData::generate_base();
    assert!(c.is_well_formed());
    assert!(!c.viewed);
    for x in 0..16 {
        for z in 0..16 {
            assert_eq!(c.block(x, 62, z), BEDROCK);
            assert_eq!(c.block(x, 63, z), GRASS_BLOCK);
            assert_eq!(c.block(x, 0, z), AIR);
            assert_eq!(c.block(x, 61, z), AIR);
        }
    }
}

#[test]
fn override_replaces_one_grass_block() {
    let c = synthesize(&vec![row(5, 63, 5, STONE as i64)]).unwrap();
    for x in 0..16 {
        for z in 0..16 {
            let want = if x == 5 && z == 5 { STONE } else { GRASS_BLOCK };
            assert_eq!(c.block(x, 63, z), want);
        }
    }
    assert_eq!(c.block(5, 62, 5), BEDROCK);
}

#[test]
fn override_order_does_not_matter() {
    let a = vec![row(1, 2, 3, 7), row(15, 63, 0, 0), row(0, 0, 0, 9)];
    let mut b = a.clone();
    b.reverse();
    let ca = synthesize(&a).unwrap();
    let cb = synthesize(&b).unwrap();
    assert_eq!(ca.blocks, cb.blocks);
    assert_eq!(ca.block(1, 2, 3), 7);
    assert_eq!(ca.block(15, 63, 0), AIR);
    assert_eq!(ca.block(0, 0, 0), 9);
}

#[test]
fn later_override_wins_on_same_block() {
    let c = synthesize(&vec![row(2, 10, 2, 4), row(2, 10, 2, 5)]).unwrap();
    assert_eq!(c.block(2, 10, 2), 5);
}

#[test]
fn malformed_overrides_fail() {
    assert_eq!(synthesize(&vec![row(16, 0, 0, 1)]).err(), Some(GenError::MalformedOverride));
    assert_eq!(synthesize(&vec![row(0, 64, 0, 1)]).err(), Some(GenError::MalformedOverride));
    assert_eq!(synthesize(&vec![row(0, 0, -1, 1)]).err(), Some(GenError::MalformedOverride));
    assert_eq!(synthesize(&vec![row(0, 0, 0, 70000)]).err(), Some(GenError::MalformedOverride));
    assert_eq!(synthesize(&vec![row(0, 0, 0, -1)]).err(), Some(GenError::MalformedOverride));
    assert!(synthesize(&vec![row(0, 0, 0, 1), row(3, 3, 99, 1)]).is_err());
}

#[test]
fn override_record_from_world_position() {
    let r = OverrideRecord::at_world(-1, -1, 33, STONE);
    assert_eq!(r.chunk, ChunkPos::new(-1, 2));
    assert_eq!(r.local, row(15, 63, 1, STONE as i64));
    let r = OverrideRecord::at_world(16, -64, -16, AIR);
    assert_eq!(r.chunk, ChunkPos::new(1, -1));
    assert_eq!(r.local, row(0, 0, 0, 0));
}
