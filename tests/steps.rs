use thrive::{neighborhood, GridCoord, StreamConfig, TerrainManager, TerrainSpawner};

fn gc(x: i32, y: i32) -> GridCoord {
    GridCoord::new(x, y)
}

#[test]
fn neighborhood_is_a_square() {
    let n = neighborhood(gc(5, -5), 2);
    assert_eq!(n.len(), 25);
    assert!(n.contains(gc(7, -3)));
    assert!(n.contains(gc(3, -7)));
    assert!(!n.contains(gc(8, -5)));
    assert_eq!(neighborhood(gc(0, 0), 0).to_vec(), vec![gc(0, 0)]);
    // no wrap-around at the edge of the integer range
    let edge = neighborhood(gc(i32::MAX, i32::MIN), 1);
    assert_eq!(edge.len(), 4);
}

#[test]
fn defaults_match_settings() {
    let c = StreamConfig::default();
    assert_eq!(c.tile_size, 128);
    assert_eq!(c.resolution, 129);
    assert_eq!(c.grid_min, gc(-50, -50));
    assert_eq!(c.grid_max, gc(50, 50));
    assert_eq!(c.max_concurrent_tasks, 8);
    assert_eq!(c.grace_period, None);
    let m = TerrainManager::default();
    assert_eq!(m.cache_version(), 1);
    assert_eq!(m.config(), c);
    assert_eq!(m.loaded_count(), 0);
}

#[test]
fn steps_one_by_one() {
    let cfg = StreamConfig::new(16, 3, gc(-4, -4), gc(4, 4), 2, None).unwrap();
    let mut m = TerrainManager::new(cfg, 1);
    let s = vec![TerrainSpawner { radius: 1, coord: gc(4, 4) }];
    m.set_demand(&s);
    // clipped to the grid corner
    assert!(m.is_desired(gc(4, 4)));
    assert!(m.is_desired(gc(3, 3)));
    assert!(!m.is_desired(gc(5, 4)));
    assert!(m.unload_stale(0).is_empty());
    let gaps = m.resolve_gaps(0);
    assert!(gaps.spawn.is_empty());
    assert!(gaps.evict.is_empty());
    assert_eq!(m.queued_tiles().len(), 4);
    let d = m.dispatch(&s);
    assert_eq!(d, vec![gc(4, 4), gc(3, 4)]);
    assert_eq!(m.queued_tiles().len(), 2);
    let out = m.complete_job(gc(4, 4), 11, 1);
    assert!(out.spawned);
    let s2 = vec![TerrainSpawner { radius: 0, coord: gc(-4, -4) }];
    m.set_demand(&s2);
    assert_eq!(m.unload_stale(2), vec![gc(4, 4)]);
    assert_eq!(m.loaded_count(), 0);
}
