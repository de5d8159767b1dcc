//! Spatial tile streaming: which grid tiles should exist around a set of
//! moving spawners, which of them to generate next, what to reuse from the
//! cache and what to release.

pub mod config;
pub mod coord;
pub mod demand;
pub mod laws;
pub mod manager;
pub mod mesh;
pub mod priority;
pub mod seq_facts;
pub mod steps;
pub mod table;

pub use config::{ConfigError, StreamConfig};
pub use coord::{world_to_coord, GridCoord, TerrainSpawner};
pub use demand::{desired_tiles, neighborhood};
pub use manager::{CachedTile, GapResolution, JobOutcome, LoadedTile, TerrainManager, TickPlan};
pub use mesh::grid_indices;
pub use priority::{grid_dist2, nearest_spawner_dist2};
pub use table::{CoordSet, TileMap};
