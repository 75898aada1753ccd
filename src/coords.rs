use vstd::prelude::*;

verus! {

/// Width of a chunk along x and along z, in blocks.
pub const CHUNK_WIDTH: usize = 16;

/// Height of a chunk, in blocks.
pub const CHUNK_HEIGHT: usize = 64;

/// Offset between a world y coordinate and the chunk-local layer that holds it.
pub const WORLD_Y_OFFSET: i64 = 64;

/// Rings generated beyond an observer's declared view radius, to hide generation latency.
pub const VIEW_RADIUS_MARGIN: u32 = 2;

/// A chunk coordinate: the column of blocks with x in `16 * x .. 16 * x + 16`
/// and z in `16 * z .. 16 * z + 16`.
#[derive(Clone, Copy, Debug, PartialEq, Eq, Structural, Hash)]
pub struct ChunkPos {
    pub x: i32,
    pub z: i32,
}

/// What an observer sees: the chunk it stands in and its view radius in chunks.
#[derive(Clone, Copy, Debug, PartialEq, Eq, Structural, Hash)]
pub struct ChunkView {
    pub pos: ChunkPos,
    pub dist: u8,
}

pub open spec fn abs(a: int) -> int {
    if a < 0 { -a } else { a }
}

pub open spec fn max(a: int, b: int) -> int {
    if a < b { b } else { a }
}

/// Squared Euclidean distance between two chunk coordinates.
pub open spec fn dist_sq(a: ChunkPos, b: ChunkPos) -> int {
    (a.x - b.x) * (a.x - b.x) + (a.z - b.z) * (a.z - b.z)
}

/// Chebyshev distance between two chunk coordinates: the index of the ring
/// around `a` on which `b` lies.
pub open spec fn ring_of(a: ChunkPos, b: ChunkPos) -> int {
    max(abs(a.x - b.x), abs(a.z - b.z))
}

/// The radius, margin included, within which a view asks for chunks.
pub open spec fn reach(v: ChunkView) -> int {
    v.dist + VIEW_RADIUS_MARGIN
}

/// A view holds a chunk when its squared distance from the view's centre is at
/// most the square of the view's reach.
pub open spec fn in_view(v: ChunkView, p: ChunkPos) -> bool {
    dist_sq(v.pos, p) <= reach(v) * reach(v)
}

/// Floor division of a block coordinate by the chunk width.
pub open spec fn chunk_of(b: int) -> int {
    if b >= 0 { b / 16 } else { -((-b - 1) / 16) - 1 }
}

/// The chunk of a block coordinate is the one whose span holds it.
pub proof fn lemma_chunk_of_bounds(b: int)
    ensures
        16 * chunk_of(b) <= b < 16 * chunk_of(b) + 16,
{
}

impl ChunkPos {
    pub fn new(x: i32, z: i32) -> (r: ChunkPos)
        ensures
            r.x == x,
            r.z == z,
    {
        ChunkPos { x, z }
    }

    /// The chunk that holds the block at world column (x, z).
    pub fn from_block(x: i32, z: i32) -> (r: ChunkPos)
        ensures
            16 * r.x <= x < 16 * r.x + 16,
            16 * r.z <= z < 16 * r.z + 16,
    {
        ChunkPos { x: floor_div16(x), z: floor_div16(z) }
    }

    /// Squared Euclidean distance to another chunk coordinate.
    pub fn distance_squared(&self, other: &ChunkPos) -> (r: u128)
        ensures
            r == dist_sq(*self, *other),
            r < 0x4_0000_0000_0000_0000,
    {
        let dx: i64 = self.x as i64 - other.x as i64;
        let dz: i64 = self.z as i64 - other.z as i64;
        let ax: u128 = if dx < 0 { (-dx) as u128 } else { dx as u128 };
        let az: u128 = if dz < 0 { (-dz) as u128 } else { dz as u128 };
        assert(ax <= 0xffff_ffff && az <= 0xffff_ffff);
        assert(ax * ax <= 0xffff_ffff * 0xffff_ffff) by (nonlinear_arith)
            requires ax <= 0xffff_ffff;
        assert(az * az <= 0xffff_ffff * 0xffff_ffff) by (nonlinear_arith)
            requires az <= 0xffff_ffff;
        assert(ax * ax == dx * dx) by (nonlinear_arith)
            requires ax == abs(dx as int);
        assert(az * az == dz * dz) by (nonlinear_arith)
            requires az == abs(dz as int);
        ax * ax + az * az
    }
}

fn floor_div16(b: i32) -> (r: i32)
    ensures
        16 * r <= b < 16 * r + 16,
        r == chunk_of(b as int),
{
    if b >= 0 {
        b / 16
    } else {
        let n: i32 = -(b + 1);
        -(n / 16) - 1
    }
}

impl ChunkView {
    pub fn new(pos: ChunkPos, dist: u8) -> (r: ChunkView)
        ensures
            r.pos == pos,
            r.dist == dist,
    {
        ChunkView { pos, dist }
    }

    /// Whether this view asks for the chunk at `p`.
    pub fn contains(&self, p: ChunkPos) -> (r: bool)
        ensures
            r == in_view(*self, p),
    {
        let reach: u128 = self.dist as u128 + VIEW_RADIUS_MARGIN as u128;
        assert(reach * reach <= 257 * 257) by (nonlinear_arith)
            requires reach <= 257;
        self.pos.distance_squared(&p) <= reach * reach
    }
}

} // verus!
