//! Demand-driven streaming of a chunked world: which chunks observers need,
//! how generation requests are merged and deduplicated, how generated chunks
//! enter and leave the store, and when a pending relocation may commit.

pub mod aggregate;
pub mod coords;
pub mod geometry;
pub mod interleave;
pub mod relocation;
pub mod store;
pub mod terrain;
pub mod unique;
pub mod world;

pub use aggregate::{aggregate, order_demand, priority, DemandRecord, PRIORITY_SCALE};
pub use coords::{ChunkPos, ChunkView, CHUNK_HEIGHT, CHUNK_WIDTH, VIEW_RADIUS_MARGIN};
pub use geometry::viewable_chunks;
pub use interleave::{Interleave, IntoInterleave};
pub use relocation::{Relocation, SetClientLocation, TargetPosition};
pub use store::{is_demanded, ChunkStore, ResidentChunk};
pub use terrain::{synthesize, ChunkData, GenError, OverrideRecord, StoredBlock};
pub use unique::{IntoUnique, Unique};
pub use world::{GenOutcome, TickReport, World};
