use thrive::{
    desired_tiles, grid_dist2, grid_indices, nearest_spawner_dist2, world_to_coord, ConfigError,
    GridCoord, StreamConfig, TerrainManager, TerrainSpawner,
};

fn gc(x: i32, y: i32) -> GridCoord {
    GridCoord::new(x, y)
}

fn spawner(x: i32, y: i32, radius: u32) -> TerrainSpawner {
    TerrainSpawner { radius, coord: gc(x, y) }
}

fn config(limit: usize, grace: Option<u64>) -> StreamConfig {
    StreamConfig::new(128, 129, gc(-50, -50), gc(50, 50), limit, grace).unwrap()
}

fn sorted(mut v: Vec<GridCoord>) -> Vec<(i32, i32)> {
    v.sort_by_key(|c| (c.x, c.y));
    v.into_iter().map(|c| (c.x, c.y)).collect()
}

fn square(cx: i32, cy: i32, r: i32) -> Vec<(i32, i32)> {
    let mut out = Vec::new();
    for x in cx - r..=cx + r {
        for y in cy - r..=cy + r {
            out.push((x, y));
        }
    }
    out
}

/// Completes every pending job, giving artifact handles from `next`.
fn complete_all(m: &mut TerrainManager, next: &mut u64, now: u64) -> usize {
    let mut spawned = 0;
    for c in m.pending_tiles() {
        let out = m.complete_job(c, *next, now);
        *next += 1;
        assert!(out.accepted);
        if out.spawned {
            spawned += 1;
        }
    }
    spawned
}

fn assert_exclusive(m: &TerrainManager) {
    for c in m.pending_tiles() {
        assert!(!m.is_loaded(c));
    }
}

#[test]
fn world_to_coord_floors() {
    assert_eq!(world_to_coord(0, 0, 32), gc(0, 0));
    assert_eq!(world_to_coord(31, -1, 32), gc(0, -1));
    assert_eq!(world_to_coord(-32, -33, 32), gc(-1, -2));
    assert_eq!(world_to_coord(64, 100, 32), gc(2, 3));
    assert_eq!(world_to_coord(i32::MIN, i32::MAX, 1), gc(i32::MIN, i32::MAX));
}

#[test]
fn config_rejects_bad_settings() {
    assert_eq!(
        StreamConfig::new(0, 129, gc(0, 0), gc(1, 1), 4, None),
        Err(ConfigError::ZeroTileSize)
    );
    assert_eq!(
        StreamConfig::new(32, 1, gc(0, 0), gc(1, 1), 4, None),
        Err(ConfigError::ResolutionTooSmall)
    );
    assert_eq!(
        StreamConfig::new(32, 2, gc(2, 0), gc(1, 1), 4, None),
        Err(ConfigError::InvertedGrid)
    );
    assert_eq!(
        StreamConfig::new(32, 2, gc(0, 3), gc(1, 1), 4, None),
        Err(ConfigError::InvertedGrid)
    );
    let ok = StreamConfig::new(32, 2, gc(1, 1), gc(1, 1), 0, Some(5)).unwrap();
    assert_eq!(ok.tile_size, 32);
    assert_eq!(ok.grace_period, Some(5));
}

#[test]
fn desired_single_spawner() {
    let d = desired_tiles(&vec![spawner(0, 0, 1)], gc(-50, -50), gc(50, 50));
    assert_eq!(d.len(), 9);
    assert_eq!(sorted(d.to_vec()), square(0, 0, 1));
}

#[test]
fn desired_empty_without_spawners() {
    let d = desired_tiles(&vec![], gc(-50, -50), gc(50, 50));
    assert_eq!(d.len(), 0);
}

#[test]
fn desired_overlapping_counts_once() {
    let d = desired_tiles(&vec![spawner(0, 0, 1), spawner(1, 0, 1)], gc(-50, -50), gc(50, 50));
    assert_eq!(d.len(), 12);
    assert!(d.contains(gc(2, 1)));
    assert!(d.contains(gc(-1, -1)));
    assert!(!d.contains(gc(3, 0)));
}

#[test]
fn desired_clipped_to_bounds() {
    let d = desired_tiles(&vec![spawner(50, 50, 2)], gc(-50, -50), gc(50, 50));
    assert_eq!(d.len(), 9);
    for c in d.to_vec() {
        assert!(c.x >= -50 && c.x <= 50 && c.y >= -50 && c.y <= 50);
    }
    let far = desired_tiles(&vec![spawner(100, 0, 3)], gc(-50, -50), gc(50, 50));
    assert_eq!(far.len(), 0);
}

#[test]
fn squared_distances() {
    assert_eq!(grid_dist2(gc(0, 0), gc(3, 4)), 25);
    assert_eq!(grid_dist2(gc(i32::MIN, i32::MIN), gc(i32::MAX, i32::MAX)), 2 * (u32::MAX as u128) * (u32::MAX as u128));
    let s = vec![spawner(0, 0, 1), spawner(10, 0, 1)];
    assert_eq!(nearest_spawner_dist2(&s, gc(8, 1)), 5);
    assert_eq!(nearest_spawner_dist2(&vec![], gc(8, 1)), 0);
}

#[test]
fn index_buffer_winding() {
    assert_eq!(grid_indices(2), vec![0, 2, 1, 1, 2, 3]);
    let r = grid_indices(3);
    assert_eq!(r.len(), 24);
    // cell (z = 1, x = 1): origin 4
    assert_eq!(&r[18..24], &[4, 7, 5, 5, 7, 8]);
    // cell (z = 0, x = 1): origin 1
    assert_eq!(&r[6..12], &[1, 4, 2, 2, 4, 5]);
}

#[test]
fn priority_ordering_nearest_first() {
    let mut m = TerrainManager::new(config(2, None), 1);
    for c in [gc(5, 5), gc(1, 1), gc(3, 0)] {
        m.request(c);
    }
    let spawners = vec![spawner(0, 0, 0)];
    let d = m.dispatch(&spawners);
    assert_eq!(d, vec![gc(1, 1), gc(3, 0)]);
    assert!(m.is_queued(gc(5, 5)));
    assert_eq!(m.pending_count(), 2);
}

#[test]
fn idempotent_request() {
    let mut m = TerrainManager::new(config(8, None), 1);
    m.request(gc(2, 2));
    m.request(gc(2, 2));
    assert_eq!(m.queued_tiles(), vec![gc(2, 2)]);
    let d = m.dispatch(&vec![spawner(0, 0, 0)]);
    assert_eq!(d, vec![gc(2, 2)]);
    assert_eq!(m.pending_tiles(), vec![gc(2, 2)]);
    // asking again while it is pending does nothing
    m.request(gc(2, 2));
    assert!(m.queued_tiles().is_empty());
    assert!(m.dispatch(&vec![spawner(0, 0, 0)]).is_empty());
}

#[test]
fn request_outside_grid_ignored() {
    let mut m = TerrainManager::new(config(8, None), 1);
    m.request(gc(51, 0));
    m.request(gc(0, -51));
    assert!(m.queued_tiles().is_empty());
}

#[test]
fn concurrency_bound_holds() {
    let mut m = TerrainManager::new(config(4, None), 1);
    let s = vec![spawner(0, 0, 3)];
    let plan = m.tick(&s, 0);
    assert_eq!(plan.dispatch.len(), 4);
    assert_eq!(m.pending_count(), 4);
    assert_eq!(m.queued_tiles().len(), 45);
    // the nearest is the spawner's own tile
    assert_eq!(plan.dispatch[0], gc(0, 0));
    let plan2 = m.tick(&s, 10);
    assert!(plan2.dispatch.is_empty());
    assert_eq!(m.pending_count(), 4);
    let mut next = 1;
    complete_all(&mut m, &mut next, 20);
    let plan3 = m.tick(&s, 30);
    assert_eq!(plan3.dispatch.len(), 4);
    assert!(m.pending_count() <= 4);
}

#[test]
fn zero_limit_dispatches_nothing() {
    let mut m = TerrainManager::new(config(0, None), 1);
    let plan = m.tick(&vec![spawner(0, 0, 1)], 0);
    assert!(plan.dispatch.is_empty());
    assert_eq!(sorted(m.queued_tiles()), square(0, 0, 1));
    m.request(gc(7, 7));
    let before = sorted(m.queued_tiles());
    assert!(m.dispatch(&vec![spawner(0, 0, 1)]).is_empty());
    assert_eq!(sorted(m.queued_tiles()), before);
    assert_eq!(m.pending_count(), 0);
}

#[test]
fn end_to_end_convergence() {
    let mut m = TerrainManager::new(config(9, None), 3);
    let s = vec![spawner(0, 0, 1)];
    let plan = m.tick(&s, 0);
    assert_eq!(sorted(plan.dispatch.clone()), square(0, 0, 1));
    assert_eq!(sorted(m.pending_tiles()), square(0, 0, 1));
    assert_exclusive(&m);
    let mut next = 100;
    assert_eq!(complete_all(&mut m, &mut next, 5), 9);
    assert_eq!(m.pending_count(), 0);
    assert_eq!(sorted(m.loaded_tiles()), square(0, 0, 1));
    assert_eq!(m.cache_count(), 9);
    for c in m.loaded_tiles() {
        assert_eq!(m.lookup(c).unwrap().version, 3);
        assert!(m.is_fresh(c));
    }
    // move away
    let s2 = vec![spawner(10, 0, 1)];
    let mut despawned: Vec<GridCoord> = Vec::new();
    let mut now = 10;
    for _ in 0..4 {
        let plan = m.tick(&s2, now);
        despawned.extend(plan.despawn);
        assert_exclusive(&m);
        complete_all(&mut m, &mut next, now + 1);
        now += 10;
    }
    assert_eq!(sorted(despawned), square(0, 0, 1));
    assert_eq!(sorted(m.loaded_tiles()), square(10, 0, 1));
    assert_eq!(m.pending_count(), 0);
    assert_eq!(m.cache_count(), 18);
}

#[test]
fn cached_tiles_are_reused() {
    let mut m = TerrainManager::new(config(9, None), 1);
    let here = vec![spawner(0, 0, 0)];
    let away = vec![spawner(20, 0, 0)];
    m.tick(&here, 0);
    let out = m.complete_job(gc(0, 0), 7, 1);
    assert!(out.accepted && out.spawned);
    assert_eq!(out.released, None);
    let plan = m.tick(&away, 2);
    assert_eq!(plan.despawn, vec![gc(0, 0)]);
    let plan = m.tick(&here, 3);
    assert_eq!(plan.spawn, vec![(gc(0, 0), 7)]);
    assert!(plan.dispatch.is_empty());
    assert!(m.is_loaded(gc(0, 0)));
    assert_eq!(m.loaded_tile(gc(0, 0)).unwrap().artifact, 7);
}

#[test]
fn cache_bump_forces_miss() {
    let mut m = TerrainManager::new(config(9, None), 1);
    let here = vec![spawner(0, 0, 0)];
    let away = vec![spawner(20, 0, 0)];
    m.tick(&here, 0);
    m.complete_job(gc(0, 0), 7, 1);
    m.tick(&away, 2);
    m.bump_cache_version();
    assert_eq!(m.cache_version(), 2);
    // still present, but stale
    assert_eq!(m.lookup(gc(0, 0)).unwrap().version, 1);
    assert!(!m.is_fresh(gc(0, 0)));
    let plan = m.tick(&here, 3);
    assert!(plan.spawn.is_empty());
    assert_eq!(plan.evict, vec![(gc(0, 0), 7)]);
    assert_eq!(plan.dispatch, vec![gc(0, 0)]);
    assert!(m.lookup(gc(0, 0)).is_none());
    let out = m.complete_job(gc(0, 0), 8, 4);
    assert!(out.spawned);
    assert_eq!(m.lookup(gc(0, 0)).unwrap().version, 2);
}

#[test]
fn job_finished_after_bump_is_cached_current() {
    let mut m = TerrainManager::new(config(9, None), 1);
    let here = vec![spawner(0, 0, 0)];
    m.tick(&here, 0);
    m.bump_cache_version();
    let out = m.complete_job(gc(0, 0), 5, 1);
    assert!(out.accepted);
    assert!(out.spawned);
    assert_eq!(m.lookup(gc(0, 0)).unwrap().version, 2);
    assert!(m.is_loaded(gc(0, 0)));
    let plan = m.tick(&here, 2);
    assert!(plan.evict.is_empty());
    assert!(plan.dispatch.is_empty());
}

#[test]
fn stale_entry_of_pending_tile_is_evicted() {
    let mut m = TerrainManager::new(config(9, None), 1);
    // cache (1, 1) at version 1 without showing it
    m.request(gc(1, 1));
    m.dispatch(&vec![]);
    m.complete_job(gc(1, 1), 4, 0);
    m.bump_cache_version();
    // a new job for it, while its stale entry is still cached
    m.request(gc(1, 1));
    assert_eq!(m.dispatch(&vec![]), vec![gc(1, 1)]);
    assert_eq!(m.lookup(gc(1, 1)).unwrap().version, 1);
    let plan = m.tick(&vec![spawner(1, 1, 0)], 1);
    assert_eq!(plan.evict, vec![(gc(1, 1), 4)]);
    assert!(plan.spawn.is_empty());
    assert!(plan.dispatch.is_empty());
    assert!(m.lookup(gc(1, 1)).is_none());
    assert!(m.is_pending(gc(1, 1)));
    assert!(!m.is_queued(gc(1, 1)));
}

#[test]
fn full_capacity_leaves_queue_alone() {
    let mut m = TerrainManager::new(config(1, None), 1);
    m.request(gc(1, 1));
    m.dispatch(&vec![]);
    m.complete_job(gc(1, 1), 4, 0);
    m.request(gc(2, 2));
    assert_eq!(m.dispatch(&vec![]), vec![gc(2, 2)]);
    // (1, 1) is freshly cached, so it is not eligible; no job can start
    m.request(gc(1, 1));
    m.request(gc(3, 3));
    assert!(m.dispatch(&vec![]).is_empty());
    assert_eq!(sorted(m.queued_tiles()), vec![(1, 1), (3, 3)]);
    assert_eq!(m.pending_tiles(), vec![gc(2, 2)]);
}

#[test]
fn explicit_evict() {
    let mut m = TerrainManager::new(config(9, None), 1);
    m.request(gc(1, 1));
    m.dispatch(&vec![]);
    m.complete_job(gc(1, 1), 4, 0);
    assert_eq!(m.evict(gc(1, 1)), Some(4));
    assert!(m.lookup(gc(1, 1)).is_none());
    assert_eq!(m.evict(gc(1, 1)), None);
    assert_eq!(m.cache_count(), 0);
}

#[test]
fn job_for_tile_no_longer_desired_is_only_cached() {
    let mut m = TerrainManager::new(config(9, None), 1);
    m.tick(&vec![spawner(0, 0, 0)], 0);
    m.tick(&vec![spawner(30, 30, 0)], 1);
    assert!(m.is_pending(gc(0, 0)));
    let out = m.complete_job(gc(0, 0), 9, 2);
    assert!(out.accepted && !out.spawned);
    assert!(!m.is_loaded(gc(0, 0)));
    assert!(m.is_fresh(gc(0, 0)));
}

#[test]
fn completing_unknown_job_changes_nothing() {
    let mut m = TerrainManager::new(config(9, None), 1);
    let out = m.complete_job(gc(3, 3), 1, 0);
    assert!(!out.accepted && !out.spawned);
    assert_eq!(out.released, None);
    assert_eq!(m.cache_count(), 0);
}

#[test]
fn replaced_cache_entry_is_released() {
    let mut m = TerrainManager::new(config(9, None), 1);
    m.request(gc(1, 1));
    m.dispatch(&vec![]);
    m.complete_job(gc(1, 1), 4, 0);
    m.request(gc(1, 1));
    // freshly cached: dispatch drops it
    assert!(m.dispatch(&vec![]).is_empty());
    m.bump_cache_version();
    m.request(gc(1, 1));
    assert_eq!(m.dispatch(&vec![]), vec![gc(1, 1)]);
    let out = m.complete_job(gc(1, 1), 6, 1);
    assert_eq!(out.released, Some(4));
}

#[test]
fn grace_period_unload() {
    let mut m = TerrainManager::new(config(9, Some(1000)), 1);
    let here = vec![spawner(0, 0, 0)];
    let away = vec![spawner(20, 0, 0)];
    m.tick(&here, 0);
    m.complete_job(gc(0, 0), 1, 0);
    let mut despawned = 0;
    // seen at T = 1000, absent from T = 1100, back at T = 1500
    despawned += m.tick(&here, 1000).despawn.len();
    despawned += m.tick(&away, 1100).despawn.len();
    despawned += m.tick(&away, 1400).despawn.len();
    despawned += m.tick(&here, 1500).despawn.len();
    assert_eq!(despawned, 0);
    assert!(m.is_loaded(gc(0, 0)));
    // now absent from T = 1600 on: released only once the grace has run out
    despawned += m.tick(&away, 1600).despawn.len();
    despawned += m.tick(&away, 2500).despawn.len();
    assert_eq!(despawned, 0);
    let plan = m.tick(&away, 2501);
    assert_eq!(plan.despawn, vec![gc(0, 0)]);
    despawned += plan.despawn.len();
    despawned += m.tick(&away, 3000).despawn.len();
    despawned += m.tick(&away, 9000).despawn.len();
    assert_eq!(despawned, 1);
    assert!(!m.is_loaded(gc(0, 0)));
}

#[test]
fn immediate_unload_without_grace() {
    let mut m = TerrainManager::new(config(9, None), 1);
    m.tick(&vec![spawner(0, 0, 0)], 0);
    m.complete_job(gc(0, 0), 1, 0);
    let plan = m.tick(&vec![spawner(1, 0, 0)], 1);
    assert_eq!(plan.despawn, vec![gc(0, 0)]);
}

#[test]
fn mutual_exclusion_across_ticks() {
    let mut m = TerrainManager::new(config(3, Some(5)), 1);
    let mut next = 1;
    for t in 0..30u64 {
        let x = (t % 7) as i32 - 3;
        let s = vec![spawner(x, 0, 1), spawner(0, x, 1)];
        m.tick(&s, t * 3);
        assert_exclusive(&m);
        assert!(m.pending_count() <= 3);
        if t % 2 == 0 {
            if let Some(c) = m.pending_tiles().first().copied() {
                m.complete_job(c, next, t * 3 + 1);
                next += 1;
            }
        }
        assert_exclusive(&m);
    }
}

#[test]
fn orphans_are_untracked_live_tiles() {
    let mut m = TerrainManager::new(config(9, None), 1);
    m.tick(&vec![spawner(0, 0, 0)], 0);
    m.complete_job(gc(0, 0), 1, 0);
    let live = vec![gc(4, 4), gc(0, 0), gc(-2, 3)];
    assert_eq!(m.orphans(&live), vec![gc(4, 4), gc(-2, 3)]);
}

#[test]
fn version_bump_saturates() {
    let mut m = TerrainManager::new(config(1, None), u64::MAX);
    m.bump_cache_version();
    assert_eq!(m.cache_version(), u64::MAX);
}
