//! A chunk-registry / spatial-resolution world model: many rectangular tile
//! grids ("chunks") stitched into one continuous walkable space. The registry
//! owns the chunks, tracks which one is active, resolves absolute coordinates
//! to chunks, and re-bases an actor's coordinate frame when it crosses a
//! chunk boundary.

pub mod chunk;
pub mod chunk_map;
pub mod coord;
pub mod serialized;

pub use chunk::MovementId;
pub use chunk::TileId;
pub use chunk::Warp;
pub use chunk::WarpDestination;
pub use chunk::WorldChunk;
pub use chunk::WorldMap;
pub use chunk_map::WorldChunkMap;
pub use chunk_map::WorldError;
pub use coord::Coordinate;
pub use coord::GlobalPosition;
pub use serialized::NPCType;
pub use serialized::Palette;
pub use serialized::SerializedNPCType;
