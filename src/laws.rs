//! Properties of the tile stream that hold across its operations, proved from
//! their contracts.
use vstd::prelude::*;
use crate::coord::{GridCoord, TerrainSpawner, in_bounds};
use crate::demand::desired_set;
use crate::manager::TerrainManager;
use crate::manager::LoadedTile;
use crate::steps::{elapsed, unload_result};

verus! {

/// No coordinate is ever both pending and loaded.
pub proof fn lemma_mutual_exclusion(m: &TerrainManager, c: GridCoord)
    requires
        m.wf(),
    ensures
        !(m.pending_map().contains_key(c) && m.loaded_map().contains_key(c)),
{
}

/// Every desired coordinate lies within the grid bounds.
pub proof fn lemma_desired_in_bounds(s: Seq<TerrainSpawner>, lo: GridCoord, hi: GridCoord, c: GridCoord)
    requires
        desired_set(s, lo, hi).contains(c),
    ensures
        in_bounds(c, lo, hi),
{
}

/// The number of jobs in flight never exceeds the concurrency limit.
pub proof fn lemma_concurrency_bound(m: &TerrainManager)
    requires
        m.wf(),
    ensures
        m.pending_map().len() <= m.cfg().max_concurrent_tasks,
{
}

/// After the cache version is bumped, an entry cached before is still
/// present but no longer fresh. The gap step treats its coordinate as a miss
/// when it is desired and not loaded: the entry is evicted and its artifact
/// released, nothing is spawned from it, and a job is queued unless one is
/// already in flight.
pub proof fn lemma_bump_invalidates(before: &TerrainManager, after: &TerrainManager, c: GridCoord, now: u64)
    requires
        before.wf(),
        after.wf(),
        after.cache_map() == before.cache_map(),
        after.version() == before.version() + 1,
        before.cache_map().contains_key(c),
    ensures
        after.cache_map().contains_key(c),
        !after.fresh(c),
        after.desired().contains(c) && !after.loaded_map().contains_key(c) ==> {
            &&& !after.cache_after_gaps().contains_key(c)
            &&& after.evictions_for_gaps().contains((c, before.cache_map()[c].artifact))
            &&& !after.loaded_after_gaps(now).contains_key(c)
            &&& (after.queue_after_gaps().contains(c) <==> !after.pending_map().contains_key(c))
        },
{
    assert(before.cache_map()[c].version <= before.version());
}

/// Requesting a coordinate a second time before dispatch changes nothing:
/// it is queued at most once, so dispatch launches at most one job for it.
pub proof fn lemma_request_idempotent(first: &TerrainManager, second: &TerrainManager, c: GridCoord)
    requires
        second.queued() == first.queue_after_request(c),
        second.cfg() == first.cfg(),
        second.loaded_map() == first.loaded_map(),
        second.pending_map() == first.pending_map(),
    ensures
        second.queue_after_request(c) == second.queued(),
{
    if second.in_grid(c) && !second.loaded_map().contains_key(c) && !second.pending_map().contains_key(c) {
        assert(second.queued().insert(c) =~= second.queued());
    }
}

/// Under a grace period `g`, the unload step releases a loaded tile exactly
/// when it is not desired and more than `g` has passed since it was last
/// seen; a released tile is no longer loaded, so it is released once.
pub proof fn lemma_grace_unload(m: &TerrainManager, c: GridCoord, now: u64, g: u64)
    requires
        m.cfg().grace_period == Some(g),
        m.loaded_map().contains_key(c),
    ensures
        m.unloaded_at(now).contains(c) <==> (!m.desired().contains(c) && elapsed(
            now,
            m.loaded_map()[c].last_seen,
        ) > g),
        m.unloaded_at(now).contains(c) ==> !m.loaded_after_unload(now).contains_key(c),
        !m.unloaded_at(now).contains(c) ==> m.loaded_after_unload(now).contains_key(c),
        m.desired().contains(c) ==> m.loaded_after_unload(now)[c].last_seen == now,
{
}

/// The loaded tiles after one unload step per tick, under grace period `g`:
/// tick `i` sees the desired set `ds[i]` at time `ts[i]`. No other step
/// changes or removes a loaded tile.
pub open spec fn unload_ticks(
    loaded: Map<GridCoord, LoadedTile>,
    ds: Seq<Set<GridCoord>>,
    ts: Seq<u64>,
    g: u64,
) -> Map<GridCoord, LoadedTile>
    recommends
        ds.len() == ts.len(),
    decreases ds.len(),
{
    if ds.len() == 0 || ts.len() == 0 {
        loaded
    } else {
        unload_result(unload_ticks(loaded, ds.drop_last(), ts.drop_last(), g), ds.last(), Some(g), ts.last())
    }
}

/// A tile last seen at `t0` is never released while every tick that misses
/// it comes no later than `t0 + g`, however often it leaves and re-enters
/// the desired set.
pub proof fn lemma_grace_keeps(
    loaded: Map<GridCoord, LoadedTile>,
    ds: Seq<Set<GridCoord>>,
    ts: Seq<u64>,
    g: u64,
    c: GridCoord,
    t0: u64,
)
    requires
        ds.len() == ts.len(),
        loaded.contains_key(c),
        loaded[c].last_seen >= t0,
        forall|i: int| 0 <= i < ts.len() ==> #[trigger] ts[i] >= t0,
        forall|i: int| 0 <= i < ts.len() && !ds[i].contains(c) ==> #[trigger] ts[i] <= t0 + g,
    ensures
        unload_ticks(loaded, ds, ts, g).contains_key(c),
        unload_ticks(loaded, ds, ts, g)[c].last_seen >= t0,
    decreases ds.len(),
{
    if ds.len() > 0 {
        let n = ds.len() - 1;
        assert forall|i: int| 0 <= i < ts.drop_last().len() implies #[trigger] ts.drop_last()[i] >= t0 by {
            assert(ts.drop_last()[i] == ts[i]);
        }
        assert forall|i: int| 0 <= i < ts.drop_last().len() && !ds.drop_last()[i].contains(c) implies #[trigger] ts.drop_last()[i] <= t0 + g by {
            assert(ts.drop_last()[i] == ts[i]);
            assert(ds.drop_last()[i] == ds[i]);
        }
        lemma_grace_keeps(loaded, ds.drop_last(), ts.drop_last(), g, c, t0);
        assert(ts.last() == ts[n]);
        assert(ds.last() == ds[n]);
    }
}

/// A tile last seen at `t0` and missing from every later tick stays loaded
/// exactly while all ticks so far came no later than `t0 + g`: it is released
/// by the first tick after `t0 + g`, and only once, since a released tile is
/// not loaded any more.
pub proof fn lemma_grace_releases_once(
    loaded: Map<GridCoord, LoadedTile>,
    ds: Seq<Set<GridCoord>>,
    ts: Seq<u64>,
    g: u64,
    c: GridCoord,
    t0: u64,
)
    requires
        ds.len() == ts.len(),
        loaded.contains_key(c),
        loaded[c].last_seen == t0,
        forall|i: int| 0 <= i < ts.len() ==> #[trigger] ts[i] >= t0,
        forall|i: int| 0 <= i < ds.len() ==> !(#[trigger] ds[i]).contains(c),
    ensures
        unload_ticks(loaded, ds, ts, g).contains_key(c) <==> (forall|i: int|
            0 <= i < ts.len() ==> #[trigger] ts[i] <= t0 + g),
        unload_ticks(loaded, ds, ts, g).contains_key(c) ==> unload_ticks(loaded, ds, ts, g)[c].last_seen
            == t0,
    decreases ds.len(),
{
    if ds.len() > 0 {
        let n = ds.len() - 1;
        assert forall|i: int| 0 <= i < ts.drop_last().len() implies #[trigger] ts.drop_last()[i] >= t0 by {
            assert(ts.drop_last()[i] == ts[i]);
        }
        assert forall|i: int| 0 <= i < ds.drop_last().len() implies !(#[trigger] ds.drop_last()[i]).contains(c) by {
            assert(ds.drop_last()[i] == ds[i]);
        }
        lemma_grace_releases_once(loaded, ds.drop_last(), ts.drop_last(), g, c, t0);
        assert(ts.last() == ts[n]);
        assert(ds.last() == ds[n]);
        let before = unload_ticks(loaded, ds.drop_last(), ts.drop_last(), g);
        if before.contains_key(c) {
            assert((forall|i: int| 0 <= i < ts.len() ==> #[trigger] ts[i] <= t0 + g) <==> ts[n] <= t0 + g) by {
                if ts[n] <= t0 + g {
                    assert forall|i: int| 0 <= i < ts.len() implies #[trigger] ts[i] <= t0 + g by {
                        if i < n {
                            assert(ts.drop_last()[i] == ts[i]);
                        }
                    }
                }
            }
        } else {
            let j = choose|j: int| 0 <= j < ts.drop_last().len() && !(#[trigger] ts.drop_last()[j] <= t0 + g);
            assert(ts.drop_last()[j] == ts[j]);
        }
    }
}

} // verus!
