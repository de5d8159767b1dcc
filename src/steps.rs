//! What each step of a tick does to the tile state, stated over maps and
//! sets; the contracts of the manager's steps are written with these.
use vstd::prelude::*;
use crate::coord::{GridCoord, TerrainSpawner};
use crate::manager::{CachedTile, LoadedTile};
use crate::priority::goes_before;

verus! {

/// Time from `t` to `now`, or zero when `t` is later.
pub open spec fn elapsed(now: u64, t: u64) -> int {
    if now >= t {
        now - t
    } else {
        0
    }
}

/// The cache holds an entry for `c` built under version `v`.
pub open spec fn fresh_in(cache: Map<GridCoord, CachedTile>, v: u64, c: GridCoord) -> bool {
    cache.contains_key(c) && cache[c].version == v
}

/// A loaded tile at `c` survives the unload step: it is desired, or the
/// grace period has not yet run out since it was last seen.
pub open spec fn kept(
    loaded: Map<GridCoord, LoadedTile>,
    desired: Set<GridCoord>,
    grace: Option<u64>,
    c: GridCoord,
    now: u64,
) -> bool {
    ||| desired.contains(c)
    ||| match grace {
        Some(g) => elapsed(now, loaded[c].last_seen) <= g,
        None => false,
    }
}

/// The loaded tiles after the unload step at time `now`: those kept, the
/// desired ones stamped as seen at `now`.
pub open spec fn unload_result(
    loaded: Map<GridCoord, LoadedTile>,
    desired: Set<GridCoord>,
    grace: Option<u64>,
    now: u64,
) -> Map<GridCoord, LoadedTile> {
    Map::new(
        |c: GridCoord| loaded.contains_key(c) && kept(loaded, desired, grace, c, now),
        |c: GridCoord|
            if desired.contains(c) {
                LoadedTile { artifact: loaded[c].artifact, last_seen: now }
            } else {
                loaded[c]
            },
    )
}

/// The coordinates that the unload step releases at time `now`.
pub open spec fn unload_released(
    loaded: Map<GridCoord, LoadedTile>,
    desired: Set<GridCoord>,
    grace: Option<u64>,
    now: u64,
) -> Set<GridCoord> {
    Set::new(|c: GridCoord| loaded.contains_key(c) && !kept(loaded, desired, grace, c, now))
}

/// `c` is desired but neither loaded nor being generated.
pub open spec fn is_gap(
    desired: Set<GridCoord>,
    loaded: Map<GridCoord, LoadedTile>,
    pending: Map<GridCoord, u64>,
    c: GridCoord,
) -> bool {
    desired.contains(c) && !loaded.contains_key(c) && !pending.contains_key(c)
}

/// `c` is desired and not loaded, and its cache entry is stale.
pub open spec fn is_stale_hit(
    desired: Set<GridCoord>,
    loaded: Map<GridCoord, LoadedTile>,
    cache: Map<GridCoord, CachedTile>,
    v: u64,
    c: GridCoord,
) -> bool {
    desired.contains(c) && !loaded.contains_key(c) && cache.contains_key(c) && !fresh_in(cache, v, c)
}

/// Loaded tiles after the gap step: gaps with a fresh cache entry join,
/// shown with the cached artifact and seen at `now`.
pub open spec fn gaps_loaded(
    desired: Set<GridCoord>,
    loaded: Map<GridCoord, LoadedTile>,
    pending: Map<GridCoord, u64>,
    cache: Map<GridCoord, CachedTile>,
    v: u64,
    now: u64,
) -> Map<GridCoord, LoadedTile> {
    Map::new(
        |c: GridCoord| loaded.contains_key(c) || (is_gap(desired, loaded, pending, c) && fresh_in(cache, v, c)),
        |c: GridCoord|
            if loaded.contains_key(c) {
                loaded[c]
            } else {
                LoadedTile { artifact: cache[c].artifact, last_seen: now }
            },
    )
}

/// The cache after the gap step: the stale entries of desired coordinates
/// that are not loaded are gone, pending or not.
pub open spec fn gaps_cache(
    desired: Set<GridCoord>,
    loaded: Map<GridCoord, LoadedTile>,
    cache: Map<GridCoord, CachedTile>,
    v: u64,
) -> Map<GridCoord, CachedTile> {
    Map::new(
        |c: GridCoord| cache.contains_key(c) && !is_stale_hit(desired, loaded, cache, v, c),
        |c: GridCoord| cache[c],
    )
}

/// The queue after the gap step: exactly the gaps that need a job.
pub open spec fn gaps_queue(
    desired: Set<GridCoord>,
    loaded: Map<GridCoord, LoadedTile>,
    pending: Map<GridCoord, u64>,
    cache: Map<GridCoord, CachedTile>,
    v: u64,
) -> Set<GridCoord> {
    Set::new(|c: GridCoord| is_gap(desired, loaded, pending, c) && !fresh_in(cache, v, c))
}

/// The gaps spawned from the cache, each with its cached artifact.
pub open spec fn gaps_spawns(
    desired: Set<GridCoord>,
    loaded: Map<GridCoord, LoadedTile>,
    pending: Map<GridCoord, u64>,
    cache: Map<GridCoord, CachedTile>,
    v: u64,
) -> Set<(GridCoord, u64)> {
    Set::new(
        |p: (GridCoord, u64)|
            is_gap(desired, loaded, pending, p.0) && fresh_in(cache, v, p.0) && p.1 == cache[p.0].artifact,
    )
}

/// The stale entries evicted by the gap step, each with the artifact to
/// release.
pub open spec fn gaps_evictions(
    desired: Set<GridCoord>,
    loaded: Map<GridCoord, LoadedTile>,
    cache: Map<GridCoord, CachedTile>,
    v: u64,
) -> Set<(GridCoord, u64)> {
    Set::new(
        |p: (GridCoord, u64)|
            is_stale_hit(desired, loaded, cache, v, p.0) && p.1 == cache[p.0].artifact,
    )
}

/// `c` may be dispatched: it is queued, and neither loaded, nor freshly
/// cached, nor pending.
pub open spec fn can_dispatch(
    queue: Set<GridCoord>,
    loaded: Map<GridCoord, LoadedTile>,
    pending: Map<GridCoord, u64>,
    cache: Map<GridCoord, CachedTile>,
    v: u64,
    c: GridCoord,
) -> bool {
    &&& queue.contains(c)
    &&& !loaded.contains_key(c)
    &&& !fresh_in(cache, v, c)
    &&& !pending.contains_key(c)
}

pub open spec fn dispatchable(
    queue: Set<GridCoord>,
    loaded: Map<GridCoord, LoadedTile>,
    pending: Map<GridCoord, u64>,
    cache: Map<GridCoord, CachedTile>,
    v: u64,
) -> Set<GridCoord> {
    Set::new(|c: GridCoord| can_dispatch(queue, loaded, pending, cache, v, c))
}

/// Pending jobs after launching one for each of `d` under version `v`.
pub open spec fn dispatch_pending(pending: Map<GridCoord, u64>, v: u64, d: Seq<GridCoord>) -> Map<
    GridCoord,
    u64,
> {
    Map::new(
        |c: GridCoord| pending.contains_key(c) || d.contains(c),
        |c: GridCoord|
            if pending.contains_key(c) {
                pending[c]
            } else {
                v
            },
    )
}

/// `d` takes from the candidates `e` as many as `cap` allows, each once,
/// nearest first: in `goes_before` order, and ahead of every candidate left.
pub open spec fn nearest_first(s: Seq<TerrainSpawner>, e: Set<GridCoord>, cap: int, d: Seq<GridCoord>) -> bool {
    &&& d.no_duplicates()
    &&& forall|i: int| 0 <= i < d.len() ==> e.contains(#[trigger] d[i])
    &&& d.len() == (if cap <= e.len() { cap } else { e.len() as int })
    &&& forall|i: int, j: int| 0 <= i < j < d.len() ==> goes_before(s, #[trigger] d[i], #[trigger] d[j])
    &&& forall|i: int, c: GridCoord|
        0 <= i < d.len() && e.contains(c) && !d.contains(c) ==> #[trigger] goes_before(s, d[i], c)
}

} // verus!
