use vstd::prelude::*;

use crate::coords::{ChunkPos, CHUNK_HEIGHT, CHUNK_WIDTH, WORLD_Y_OFFSET};

verus! {

/// Number of blocks in one chunk.
pub const CHUNK_VOLUME: usize = 16384;

/// Block state ids, as the game protocol numbers them.
pub const AIR: u16 = 0;
pub const STONE: u16 = 1;
pub const GRASS_BLOCK: u16 = 9;
pub const BEDROCK: u16 = 79;

/// The layer of bedrock in generated terrain.
pub const BEDROCK_LAYER: usize = 62;
/// The layer of grass in generated terrain.
pub const GRASS_LAYER: usize = 63;

/// Position of the block at local (x, y, z) in a chunk's block array.
pub open spec fn block_index(x: int, y: int, z: int) -> int {
    (y * 16 + z) * 16 + x
}

/// Whether local (x, y, z) lies inside a chunk.
pub open spec fn in_chunk(x: int, y: int, z: int) -> bool {
    0 <= x < 16 && 0 <= y < 64 && 0 <= z < 16
}

/// The generated block at position `i` of the block array, before any override.
pub open spec fn base_block(i: int) -> u16 {
    if i / 256 == 62 {
        BEDROCK
    } else if i / 256 == 63 {
        GRASS_BLOCK
    } else {
        AIR
    }
}

/// One stored override as the persistence gateway returns it: local position
/// within the chunk and a raw block id.
#[derive(Clone, Copy, Debug, PartialEq, Eq, Structural, Hash)]
pub struct StoredBlock {
    pub x: i64,
    pub y: i64,
    pub z: i64,
    pub block: i64,
}

/// A stored override is well formed when its position lies in the chunk and
/// its block id fits a block state id.
pub open spec fn stored_ok(r: StoredBlock) -> bool {
    in_chunk(r.x as int, r.y as int, r.z as int) && 0 <= r.block <= u16::MAX
}

pub open spec fn stored_index(r: StoredBlock) -> int {
    block_index(r.x as int, r.y as int, r.z as int)
}

/// The block at position `i` after laying `rows` over generated terrain, in
/// order: the last override that names position `i` wins.
pub open spec fn overlaid(rows: Seq<StoredBlock>, i: int) -> u16
    decreases rows.len(),
{
    if rows.len() == 0 {
        base_block(i)
    } else if stored_index(rows.last()) == i {
        rows.last().block as u16
    } else {
        overlaid(rows.drop_last(), i)
    }
}

/// Why a chunk could not be generated.
#[derive(Clone, Copy, Debug, PartialEq, Eq, Structural)]
pub enum GenError {
    /// A stored override names a position outside the chunk or a block id
    /// that is no block state.
    MalformedOverride,
}

/// The blocks of one chunk and whether an observer currently has it in view.
pub struct ChunkData {
    pub blocks: Vec<u16>,
    pub viewed: bool,
}

impl ChunkData {
    pub open spec fn wf(&self) -> bool {
        self.blocks@.len() == CHUNK_VOLUME
    }

    /// Generated terrain with no override: bedrock on one layer, grass on the
    /// layer above it, air everywhere else.
    pub fn generate_base() -> (r: ChunkData)
        ensures
            r.wf(),
            !r.viewed,
            forall|i: int| 0 <= i < CHUNK_VOLUME ==> r.blocks@[i] == base_block(i),
    {
        let mut blocks: Vec<u16> = Vec::with_capacity(CHUNK_VOLUME);
        let mut i: usize = 0;
        while i < CHUNK_VOLUME
            invariant
                i <= CHUNK_VOLUME,
                blocks@.len() == i,
                forall|j: int| 0 <= j < i ==> blocks@[j] == base_block(j),
            decreases CHUNK_VOLUME - i,
        {
            let layer: usize = i / (CHUNK_WIDTH * CHUNK_WIDTH);
            let b: u16 = if layer == BEDROCK_LAYER {
                BEDROCK
            } else if layer == GRASS_LAYER {
                GRASS_BLOCK
            } else {
                AIR
            };
            blocks.push(b);
            i += 1;
        }
        ChunkData { blocks, viewed: false }
    }

    /// Whether the block array has the size of a chunk.
    pub fn is_well_formed(&self) -> (r: bool)
        ensures
            r == self.wf(),
    {
        self.blocks.len() == CHUNK_VOLUME
    }

    /// The block at local (x, y, z).
    pub fn block(&self, x: usize, y: usize, z: usize) -> (r: u16)
        requires
            self.wf(),
            in_chunk(x as int, y as int, z as int),
        ensures
            r == self.blocks@[block_index(x as int, y as int, z as int)],
    {
        assert(0 <= block_index(x as int, y as int, z as int) < CHUNK_VOLUME) by (nonlinear_arith)
            requires in_chunk(x as int, y as int, z as int);
        self.blocks[(y * CHUNK_WIDTH + z) * CHUNK_WIDTH + x]
    }

    /// Replaces the block at local (x, y, z).
    pub fn set_block(&mut self, x: usize, y: usize, z: usize, block: u16)
        requires
            old(self).wf(),
            in_chunk(x as int, y as int, z as int),
        ensures
            final(self).wf(),
            final(self).viewed == old(self).viewed,
            final(self).blocks@ == old(self).blocks@.update(
                block_index(x as int, y as int, z as int),
                block,
            ),
    {
        assert(0 <= block_index(x as int, y as int, z as int) < CHUNK_VOLUME) by (nonlinear_arith)
            requires in_chunk(x as int, y as int, z as int);
        self.blocks.set((y * CHUNK_WIDTH + z) * CHUNK_WIDTH + x, block);
    }

    /// Records whether an observer currently has this chunk in view.
    pub fn set_viewed(&mut self, viewed: bool)
        ensures
            *final(self) == (ChunkData { viewed, ..*old(self) }),
    {
        self.viewed = viewed;
    }
}

/// Builds the chunk for a coordinate: generated terrain with every stored
/// override laid over it, the override always winning over the terrain.
/// Fails when any stored override is malformed.
pub fn synthesize(rows: &Vec<StoredBlock>) -> (r: Result<ChunkData, GenError>)
    ensures
        match r {
            Ok(c) => {
                &&& forall|k: int| 0 <= k < rows@.len() ==> stored_ok(#[trigger] rows@[k])
                &&& c.wf()
                &&& !c.viewed
                &&& forall|i: int| 0 <= i < CHUNK_VOLUME ==> c.blocks@[i] == overlaid(rows@, i)
            },
            Err(e) => {
                &&& e == GenError::MalformedOverride
                &&& exists|k: int| 0 <= k < rows@.len() && !stored_ok(#[trigger] rows@[k])
            },
        },
{
    let mut chunk = ChunkData::generate_base();
    let mut j: usize = 0;
    while j < rows.len()
        invariant
            j <= rows@.len(),
            chunk.wf(),
            !chunk.viewed,
            forall|k: int| 0 <= k < j ==> stored_ok(#[trigger] rows@[k]),
            forall|i: int|
                0 <= i < CHUNK_VOLUME ==> chunk.blocks@[i] == overlaid(rows@.take(j as int), i),
        decreases rows@.len() - j,
    {
        let row = rows[j];
        if row.x < 0 || row.x >= CHUNK_WIDTH as i64 || row.y < 0 || row.y >= CHUNK_HEIGHT as i64
            || row.z < 0 || row.z >= CHUNK_WIDTH as i64 || row.block < 0 || row.block > u16::MAX as i64
        {
            return Err(GenError::MalformedOverride);
        }
        let ghost before = chunk.blocks@;
        chunk.set_block(row.x as usize, row.y as usize, row.z as usize, row.block as u16);
        assert(rows@.take(j + 1).drop_last() =~= rows@.take(j as int));
        assert forall|i: int| 0 <= i < CHUNK_VOLUME implies chunk.blocks@[i] == overlaid(
            rows@.take(j + 1),
            i,
        ) by {
            assert(rows@.take(j + 1).last() == row);
        }
        j += 1;
    }
    assert(rows@.take(rows@.len() as int) =~= rows@);
    Ok(chunk)
}

/// No two overrides name the same block.
pub open spec fn distinct_positions(rows: Seq<StoredBlock>) -> bool {
    forall|a: int, b: int|
        0 <= a < b < rows.len() ==> #[trigger] rows[a] != #[trigger] rows[b] && (rows[a].x != rows[b].x
            || rows[a].y != rows[b].y || rows[a].z != rows[b].z)
}

proof fn lemma_block_index_injective(a: StoredBlock, b: StoredBlock)
    requires
        stored_ok(a),
        stored_ok(b),
        stored_index(a) == stored_index(b),
    ensures
        a.x == b.x && a.y == b.y && a.z == b.z,
{
    let (ax, ay, az) = (a.x as int, a.y as int, a.z as int);
    let (bx, by, bz) = (b.x as int, b.y as int, b.z as int);
    assert(ax == bx && ay == by && az == bz) by (nonlinear_arith)
        requires
            0 <= ax < 16,
            0 <= bx < 16,
            0 <= az < 16,
            0 <= bz < 16,
            0 <= ay < 64,
            0 <= by < 64,
            (ay * 16 + az) * 16 + ax == (by * 16 + bz) * 16 + bx,
    ;
}

/// Overrides win over generated terrain: where the stored overrides name
/// distinct blocks, the synthesized chunk holds at each overridden position
/// that override's block, and the generated block everywhere else.
pub proof fn lemma_override_precedence(rows: Seq<StoredBlock>, i: int)
    requires
        distinct_positions(rows),
        forall|k: int| 0 <= k < rows.len() ==> stored_ok(#[trigger] rows[k]),
    ensures
        forall|k: int|
            0 <= k < rows.len() && stored_index(#[trigger] rows[k]) == i ==> overlaid(rows, i) == rows[k].block as u16,
        (forall|k: int| 0 <= k < rows.len() ==> stored_index(#[trigger] rows[k]) != i) ==> overlaid(rows, i)
            == base_block(i),
    decreases rows.len(),
{
    if rows.len() > 0 {
        let init = rows.drop_last();
        assert(distinct_positions(init)) by {
            assert forall|a: int, b: int| 0 <= a < b < init.len() implies #[trigger] init[a] != #[trigger] init[b]
                && (init[a].x != init[b].x || init[a].y != init[b].y || init[a].z != init[b].z) by {
                assert(init[a] == rows[a] && init[b] == rows[b]);
            }
        }
        lemma_override_precedence(init, i);
        let last = rows.len() - 1;
        assert forall|k: int|
            0 <= k < rows.len() && stored_index(#[trigger] rows[k]) == i implies overlaid(rows, i) == rows[k].block as u16 by {
            if k < last {
                assert(init[k] == rows[k]);
                if stored_index(rows[last]) == i {
                    lemma_block_index_injective(rows[k], rows[last]);
                }
            }
        }
        if forall|k: int| 0 <= k < rows.len() ==> stored_index(#[trigger] rows[k]) != i {
            assert forall|k: int| 0 <= k < init.len() implies stored_index(#[trigger] init[k]) != i by {
                assert(init[k] == rows[k]);
            }
            assert(stored_index(rows[last]) != i);
        }
    }
}

/// The order in which the gateway hands out overrides does not matter: two
/// reads holding the same overrides, each naming distinct blocks, give the
/// same chunk.
pub proof fn lemma_override_order_irrelevant(a: Seq<StoredBlock>, b: Seq<StoredBlock>)
    requires
        distinct_positions(a),
        distinct_positions(b),
        forall|k: int| 0 <= k < a.len() ==> stored_ok(#[trigger] a[k]),
        forall|r: StoredBlock| a.contains(r) <==> b.contains(r),
    ensures
        forall|i: int| #[trigger] overlaid(a, i) == overlaid(b, i),
{
    assert forall|k: int| 0 <= k < b.len() implies stored_ok(#[trigger] b[k]) by {
        assert(b.contains(b[k]));
    }
    assert forall|i: int| #[trigger] overlaid(a, i) == overlaid(b, i) by {
        lemma_override_precedence(a, i);
        lemma_override_precedence(b, i);
        if exists|k: int| 0 <= k < a.len() && stored_index(#[trigger] a[k]) == i {
            let k = choose|k: int| 0 <= k < a.len() && stored_index(#[trigger] a[k]) == i;
            assert(a.contains(a[k]));
            let m = choose|m: int| 0 <= m < b.len() && b[m] == a[k];
            assert(stored_index(b[m]) == i);
        } else if exists|k: int| 0 <= k < b.len() && stored_index(#[trigger] b[k]) == i {
            let k = choose|k: int| 0 <= k < b.len() && stored_index(#[trigger] b[k]) == i;
            assert(b.contains(b[k]));
            let m = choose|m: int| 0 <= m < a.len() && a[m] == b[k];
            assert(stored_index(a[m]) == i);
        }
    }
}

/// An override as it is stored: the chunk it belongs to, its position
/// within that chunk, and the block.
#[derive(Clone, Copy, Debug, PartialEq, Eq, Structural, Hash)]
pub struct OverrideRecord {
    pub chunk: ChunkPos,
    pub local: StoredBlock,
}

impl OverrideRecord {
    /// The stored form of setting the block at world (x, y, z) to `block`.
    pub fn at_world(x: i32, y: i32, z: i32, block: u16) -> (r: OverrideRecord)
        ensures
            16 * r.chunk.x <= x < 16 * r.chunk.x + 16,
            16 * r.chunk.z <= z < 16 * r.chunk.z + 16,
            r.local.x == x - 16 * r.chunk.x,
            r.local.z == z - 16 * r.chunk.z,
            r.local.y == y + WORLD_Y_OFFSET,
            r.local.block == block,
    {
        let chunk = ChunkPos::from_block(x, z);
        let lx: i64 = x as i64 - 16 * chunk.x as i64;
        let lz: i64 = z as i64 - 16 * chunk.z as i64;
        OverrideRecord {
            chunk,
            local: StoredBlock { x: lx, y: y as i64 + WORLD_Y_OFFSET, z: lz, block: block as i64 },
        }
    }
}

} // verus!
