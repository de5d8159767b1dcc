//! Tunables of the streaming scheduler, checked once when they are built.
use vstd::prelude::*;
use crate::coord::GridCoord;

verus! {

/// Why a configuration was rejected.
#[derive(Clone, Copy, Debug, PartialEq, Eq, Structural)]
pub enum ConfigError {
    /// The tile size is zero.
    ZeroTileSize,
    /// Fewer than two samples per tile edge.
    ResolutionTooSmall,
    /// `grid_min` exceeds `grid_max` on some axis.
    InvertedGrid,
}

/// Scheduler settings. Times are in milliseconds, sizes in world units.
#[derive(Clone, Copy, Debug, PartialEq, Eq, Structural)]
pub struct StreamConfig {
    /// World units per tile edge.
    pub tile_size: u32,
    /// Samples per tile edge.
    pub resolution: u32,
    /// Inclusive lower corner of the grid.
    pub grid_min: GridCoord,
    /// Inclusive upper corner of the grid.
    pub grid_max: GridCoord,
    /// Most generation jobs in flight at once.
    pub max_concurrent_tasks: usize,
    /// How long a tile may stay out of the desired set before it is unloaded;
    /// `None` unloads at once.
    pub grace_period: Option<u64>,
}

impl Default for StreamConfig {
    /// Tiles of 128 units sampled 129 times per edge on a grid from
    /// `(-50, -50)` to `(50, 50)`, eight jobs at once, immediate unload.
    fn default() -> (r: Self)
        ensures
            r == (StreamConfig {
                tile_size: 128,
                resolution: 129,
                grid_min: GridCoord { x: -50i32, y: -50i32 },
                grid_max: GridCoord { x: 50, y: 50 },
                max_concurrent_tasks: 8,
                grace_period: None,
            }),
            r.valid(),
    {
        StreamConfig {
            tile_size: 128,
            resolution: 129,
            grid_min: GridCoord { x: -50i32, y: -50i32 },
            grid_max: GridCoord { x: 50, y: 50 },
            max_concurrent_tasks: 8,
            grace_period: None,
        }
    }
}

impl StreamConfig {
    pub open spec fn valid(&self) -> bool {
        &&& self.tile_size > 0
        &&& self.resolution >= 2
        &&& self.grid_min.x <= self.grid_max.x
        &&& self.grid_min.y <= self.grid_max.y
    }

    /// Checks the settings: the tile size first, then the resolution, then
    /// the grid range.
    pub fn new(
        tile_size: u32,
        resolution: u32,
        grid_min: GridCoord,
        grid_max: GridCoord,
        max_concurrent_tasks: usize,
        grace_period: Option<u64>,
    ) -> (r: Result<StreamConfig, ConfigError>)
        ensures
            tile_size == 0 <==> r == Err::<StreamConfig, ConfigError>(ConfigError::ZeroTileSize),
            tile_size > 0 && resolution < 2 <==> r == Err::<StreamConfig, ConfigError>(
                ConfigError::ResolutionTooSmall,
            ),
            tile_size > 0 && resolution >= 2 && (grid_min.x > grid_max.x || grid_min.y > grid_max.y)
                <==> r == Err::<StreamConfig, ConfigError>(ConfigError::InvertedGrid),
            r is Ok <==> (tile_size > 0 && resolution >= 2 && grid_min.x <= grid_max.x && grid_min.y
                <= grid_max.y),
            r is Ok ==> r->Ok_0 == (StreamConfig {
                tile_size,
                resolution,
                grid_min,
                grid_max,
                max_concurrent_tasks,
                grace_period,
            }) && r->Ok_0.valid(),
    {
        if tile_size == 0 {
            Err(ConfigError::ZeroTileSize)
        } else if resolution < 2 {
            Err(ConfigError::ResolutionTooSmall)
        } else if grid_min.x > grid_max.x || grid_min.y > grid_max.y {
            Err(ConfigError::InvertedGrid)
        } else {
            Ok(StreamConfig { tile_size, resolution, grid_min, grid_max, max_concurrent_tasks, grace_period })
        }
    }
}

} // verus!
