//! The tile lifecycle: which coordinates are loaded, which are being
//! generated, which wait for a job, and what the cache holds.
//!
//! Each tick runs in a fixed order: record the demand, unload tiles that left
//! it, resolve the gaps against the cache, dispatch jobs nearest first. Jobs
//! that finish are handed back one by one with `complete_job`. A coordinate is
//! never pending and loaded at once, and the number of jobs in flight never
//! exceeds the configured limit.
use vstd::prelude::*;
use crate::config::StreamConfig;
use crate::coord::{GridCoord, TerrainSpawner, in_bounds};
use crate::demand::{desired_set, desired_tiles};
use crate::priority::{before_by_key, goes_before, nearest_dist2, nearest_spawner_dist2};
use crate::seq_facts::{lemma_prefix_contains, lemma_push_distinct};
use crate::steps::{
    can_dispatch, dispatch_pending, dispatchable, fresh_in, gaps_cache, gaps_evictions, gaps_loaded,
    gaps_queue, gaps_spawns, is_gap, is_stale_hit, kept, nearest_first, unload_released, unload_result,
};
use crate::table::{CoordSet, TileMap};

verus! {


/// Index of the candidate that goes first; `keys` holds each candidate's
/// nearest squared distance.
fn pick_first(cands: &Vec<GridCoord>, keys: &Vec<u128>, Ghost(s): Ghost<Seq<TerrainSpawner>>) -> (m: usize)
    requires
        cands@.len() > 0,
        cands@.no_duplicates(),
        keys@.len() == cands@.len(),
        forall|j: int| 0 <= j < cands@.len() ==> keys@[j] == nearest_dist2(s, #[trigger] cands@[j]),
    ensures
        m < cands@.len(),
        forall|k: int| 0 <= k < cands@.len() && k != m ==> goes_before(s, cands@[m as int], #[trigger] cands@[k]),
{
    let mut m: usize = 0;
    let mut j: usize = 1;
    while j < cands.len()
        invariant
            cands@.no_duplicates(),
            keys@.len() == cands@.len(),
            forall|j: int| 0 <= j < cands@.len() ==> keys@[j] == nearest_dist2(s, #[trigger] cands@[j]),
            m < j <= cands@.len(),
            forall|k: int| 0 <= k < j && k != m ==> goes_before(s, cands@[m as int], #[trigger] cands@[k]),
        decreases cands@.len() - j,
    {
        assert(cands@[j as int] != cands@[m as int]);
        if before_by_key(keys[j], cands[j], keys[m], cands[m]) {
            m = j;
        }
        j = j + 1;
    }
    m
}

/// A set holding the elements of `v`.
fn set_of(v: &Vec<GridCoord>) -> (r: CoordSet)
    ensures
        r.wf(),
        r@ == v@.to_set(),
{
    let mut r = CoordSet::new();
    let mut i: usize = 0;
    while i < v.len()
        invariant
            i <= v@.len(),
            r.wf(),
            r@ == v@.subrange(0, i as int).to_set(),
        decreases v@.len() - i,
    {
        r.insert(v[i]);
        proof {
            assert forall|k: GridCoord| #[trigger] v@.subrange(0, i as int + 1).contains(k) <==> (v@.subrange(0, i as int).contains(k) || k == v@[i as int]) by {
                lemma_prefix_contains(v@, i as int, k);
            }
        }
        i = i + 1;
        assert(r@ =~= v@.subrange(0, i as int).to_set());
    }
    assert(v@.subrange(0, v@.len() as int) =~= v@);
    r
}

/// A generated artifact kept for reuse, with the cache version it was built
/// under.
#[derive(Clone, Copy, Debug, PartialEq, Eq, Structural)]
pub struct CachedTile {
    pub artifact: u64,
    pub version: u64,
}

/// A tile that is live in the world: the artifact it shows and the last time
/// its coordinate was seen in the desired set.
#[derive(Clone, Copy, Debug, PartialEq, Eq, Structural)]
pub struct LoadedTile {
    pub artifact: u64,
    pub last_seen: u64,
}

/// What the gap step asks of the world: tiles to spawn from cached
/// artifacts, and stale artifacts to release. Each pairs a coordinate with an
/// artifact handle.
pub struct GapResolution {
    pub spawn: Vec<(GridCoord, u64)>,
    pub evict: Vec<(GridCoord, u64)>,
}

/// What one tick asks of the world, in the order it must be done: despawn
/// tiles, spawn tiles from cached artifacts, release stale artifacts, and
/// launch generation jobs (nearest first).
pub struct TickPlan {
    pub despawn: Vec<GridCoord>,
    pub spawn: Vec<(GridCoord, u64)>,
    pub evict: Vec<(GridCoord, u64)>,
    pub dispatch: Vec<GridCoord>,
}

/// What became of a finished job.
#[derive(Clone, Copy, Debug, PartialEq, Eq, Structural)]
pub struct JobOutcome {
    /// The coordinate had a job in flight; otherwise nothing changed.
    pub accepted: bool,
    /// A tile is to be spawned from the new artifact.
    pub spawned: bool,
    /// The artifact that the new cache entry replaced, to be released.
    pub released: Option<u64>,
}

/// Scheduling state of the tile stream. Live tiles are named by their
/// coordinate; artifacts by the `u64` handle their producer gave them.
pub struct TerrainManager {
    config: StreamConfig,
    cache_version: u64,
    cache: TileMap<CachedTile>,
    loaded: TileMap<LoadedTile>,
    /// Jobs in flight, with the cache version current when each was launched.
    pending: TileMap<u64>,
    queue: CoordSet,
    desired: CoordSet,
}

impl Default for TerrainManager {
    /// An empty stream under the default settings, at cache version 1.
    fn default() -> (r: Self)
        ensures
            r.wf(),
            r.cfg() == (StreamConfig {
                tile_size: 128,
                resolution: 129,
                grid_min: GridCoord { x: -50i32, y: -50i32 },
                grid_max: GridCoord { x: 50, y: 50 },
                max_concurrent_tasks: 8,
                grace_period: None,
            }),
            r.version() == 1,
            r.cache_map() == Map::<GridCoord, CachedTile>::empty(),
            r.loaded_map() == Map::<GridCoord, LoadedTile>::empty(),
            r.pending_map() == Map::<GridCoord, u64>::empty(),
            r.queued() == Set::<GridCoord>::empty(),
            r.desired() == Set::<GridCoord>::empty(),
    {
        TerrainManager::new(StreamConfig::default(), 1)
    }
}

impl TerrainManager {
    pub closed spec fn cfg(&self) -> StreamConfig {
        self.config
    }

    pub closed spec fn version(&self) -> u64 {
        self.cache_version
    }

    pub closed spec fn cache_map(&self) -> Map<GridCoord, CachedTile> {
        self.cache@
    }

    pub closed spec fn loaded_map(&self) -> Map<GridCoord, LoadedTile> {
        self.loaded@
    }

    pub closed spec fn pending_map(&self) -> Map<GridCoord, u64> {
        self.pending@
    }

    pub closed spec fn queued(&self) -> Set<GridCoord> {
        self.queue@
    }

    pub closed spec fn desired(&self) -> Set<GridCoord> {
        self.desired@
    }

    /// The cache holds an entry for `c` built under the current version.
    pub open spec fn fresh(&self, c: GridCoord) -> bool {
        fresh_in(self.cache_map(), self.version(), c)
    }

    pub open spec fn in_grid(&self, c: GridCoord) -> bool {
        in_bounds(c, self.cfg().grid_min, self.cfg().grid_max)
    }

    pub closed spec fn tables_wf(&self) -> bool {
        &&& self.cache.wf()
        &&& self.loaded.wf()
        &&& self.pending.wf()
        &&& self.queue.wf()
        &&& self.desired.wf()
    }

    /// The state invariant.
    pub open spec fn wf(&self) -> bool {
        &&& self.tables_wf()
        &&& self.cfg().valid()
        &&& self.pending_map().dom().finite()
        &&& self.loaded_map().dom().finite()
        &&& self.pending_map().len() <= self.cfg().max_concurrent_tasks
        &&& forall|c: GridCoord| #[trigger]
            self.pending_map().contains_key(c) ==> !self.loaded_map().contains_key(c)
        &&& forall|c: GridCoord| #[trigger] self.loaded_map().contains_key(c) ==> self.in_grid(c)
        &&& forall|c: GridCoord| #[trigger] self.pending_map().contains_key(c) ==> self.in_grid(c)
        &&& forall|c: GridCoord| #[trigger] self.queued().contains(c) ==> self.in_grid(c)
        &&& forall|c: GridCoord| #[trigger] self.desired().contains(c) ==> self.in_grid(c)
        &&& forall|c: GridCoord| #[trigger]
            self.pending_map().contains_key(c) ==> self.pending_map()[c] <= self.version()
        &&& forall|c: GridCoord| #[trigger]
            self.cache_map().contains_key(c) ==> self.cache_map()[c].version <= self.version()
    }

    proof fn lemma_tables(&self)
        requires
            self.tables_wf(),
        ensures
            self.pending_map().dom().finite(),
            self.loaded_map().dom().finite(),
            self.cache_map().dom().finite(),
            self.queued().finite(),
            self.desired().finite(),
    {
        self.pending.lemma_keys();
        self.loaded.lemma_keys();
        self.cache.lemma_keys();
        self.queue.lemma_keys();
        self.desired.lemma_keys();
    }

    /// Puts the views of both states in the context, so that facts about
    /// one can be carried to the other.
    proof fn lemma_same_views(&self, other: &Self)
        ensures
            self.cfg() == self.config,
            other.cfg() == other.config,
            self.version() == self.cache_version,
            other.version() == other.cache_version,
            self.cache_map() == self.cache@,
            other.cache_map() == other.cache@,
            self.loaded_map() == self.loaded@,
            other.loaded_map() == other.loaded@,
            self.pending_map() == self.pending@,
            other.pending_map() == other.pending@,
            self.queued() == self.queue@,
            other.queued() == other.queue@,
            self.desired() == self.desired@,
            other.desired() == other.desired@,
    {
    }

    /// An empty stream: nothing desired, loaded, pending, queued or cached.
    pub fn new(config: StreamConfig, cache_version: u64) -> (r: TerrainManager)
        requires
            config.valid(),
        ensures
            r.wf(),
            r.cfg() == config,
            r.version() == cache_version,
            r.cache_map() == Map::<GridCoord, CachedTile>::empty(),
            r.loaded_map() == Map::<GridCoord, LoadedTile>::empty(),
            r.pending_map() == Map::<GridCoord, u64>::empty(),
            r.queued() == Set::<GridCoord>::empty(),
            r.desired() == Set::<GridCoord>::empty(),
    {
        let r = TerrainManager {
            config,
            cache_version,
            cache: TileMap::new(),
            loaded: TileMap::new(),
            pending: TileMap::new(),
            queue: CoordSet::new(),
            desired: CoordSet::new(),
        };
        proof {
            r.lemma_tables();
        }
        r
    }

    pub fn config(&self) -> (r: StreamConfig)
        ensures
            r == self.cfg(),
    {
        self.config
    }

    pub fn cache_version(&self) -> (r: u64)
        ensures
            r == self.version(),
    {
        self.cache_version
    }

    pub fn is_loaded(&self, c: GridCoord) -> (r: bool)
        requires
            self.wf(),
        ensures
            r == self.loaded_map().contains_key(c),
    {
        self.loaded.contains(c)
    }

    pub fn is_pending(&self, c: GridCoord) -> (r: bool)
        requires
            self.wf(),
        ensures
            r == self.pending_map().contains_key(c),
    {
        self.pending.contains(c)
    }

    pub fn is_queued(&self, c: GridCoord) -> (r: bool)
        requires
            self.wf(),
        ensures
            r == self.queued().contains(c),
    {
        self.queue.contains(c)
    }

    pub fn is_desired(&self, c: GridCoord) -> (r: bool)
        requires
            self.wf(),
        ensures
            r == self.desired().contains(c),
    {
        self.desired.contains(c)
    }

    /// The cache entry of `c`, fresh or stale.
    pub fn lookup(&self, c: GridCoord) -> (r: Option<CachedTile>)
        requires
            self.wf(),
        ensures
            r == (if self.cache_map().contains_key(c) {
                Some(self.cache_map()[c])
            } else {
                None::<CachedTile>
            }),
    {
        self.cache.get(c)
    }

    /// Whether the entry of `c` may be reused: only one built under the
    /// current cache version counts as a hit.
    pub fn is_fresh(&self, c: GridCoord) -> (r: bool)
        requires
            self.wf(),
        ensures
            r == self.fresh(c),
    {
        match self.cache.get(c) {
            Some(e) => e.version == self.cache_version,
            None => false,
        }
    }

    /// The coordinates with a job in flight, each once.
    pub fn pending_tiles(&self) -> (r: Vec<GridCoord>)
        requires
            self.wf(),
        ensures
            r@.no_duplicates(),
            r@.to_set() == self.pending_map().dom(),
    {
        proof {
            self.pending.lemma_keys();
        }
        self.pending.keys()
    }

    /// The loaded coordinates, each once.
    pub fn loaded_tiles(&self) -> (r: Vec<GridCoord>)
        requires
            self.wf(),
        ensures
            r@.no_duplicates(),
            r@.to_set() == self.loaded_map().dom(),
    {
        proof {
            self.loaded.lemma_keys();
        }
        self.loaded.keys()
    }

    /// The loaded tile at `c`, if any.
    pub fn loaded_tile(&self, c: GridCoord) -> (r: Option<LoadedTile>)
        requires
            self.wf(),
        ensures
            r == (if self.loaded_map().contains_key(c) {
                Some(self.loaded_map()[c])
            } else {
                None::<LoadedTile>
            }),
    {
        self.loaded.get(c)
    }

    /// The queued coordinates, each once.
    pub fn queued_tiles(&self) -> (r: Vec<GridCoord>)
        requires
            self.wf(),
        ensures
            r@.no_duplicates(),
            r@.to_set() == self.queued(),
    {
        proof {
            self.queue.lemma_keys();
        }
        self.queue.to_vec()
    }

    pub fn pending_count(&self) -> (r: usize)
        requires
            self.wf(),
        ensures
            r == self.pending_map().len(),
    {
        self.pending.len()
    }

    pub fn loaded_count(&self) -> (r: usize)
        requires
            self.wf(),
        ensures
            r == self.loaded_map().len(),
    {
        self.loaded.len()
    }

    pub fn cache_count(&self) -> (r: usize)
        requires
            self.wf(),
        ensures
            r == self.cache_map().len(),
    {
        self.cache.len()
    }

    /// Records the demand of this tick: the coordinates that the spawners'
    /// footprints cover inside the grid.
    pub fn set_demand(&mut self, spawners: &Vec<TerrainSpawner>)
        requires
            old(self).wf(),
        ensures
            final(self).wf(),
            final(self).desired() == desired_set(spawners@, old(self).cfg().grid_min, old(self).cfg().grid_max),
            final(self).cfg() == old(self).cfg(),
            final(self).version() == old(self).version(),
            final(self).cache_map() == old(self).cache_map(),
            final(self).loaded_map() == old(self).loaded_map(),
            final(self).pending_map() == old(self).pending_map(),
            final(self).queued() == old(self).queued(),
    {
        self.desired = desired_tiles(spawners, self.config.grid_min, self.config.grid_max);
        proof {
            self.lemma_tables();
            self.lemma_same_views(old(self));
        }
    }

    /// `kept` for this state.
    pub open spec fn keeps(&self, c: GridCoord, now: u64) -> bool {
        kept(self.loaded_map(), self.desired(), self.cfg().grace_period, c, now)
    }

    /// `unload_result` for this state.
    pub open spec fn loaded_after_unload(&self, now: u64) -> Map<GridCoord, LoadedTile> {
        unload_result(self.loaded_map(), self.desired(), self.cfg().grace_period, now)
    }

    /// `unload_released` for this state.
    pub open spec fn unloaded_at(&self, now: u64) -> Set<GridCoord> {
        unload_released(self.loaded_map(), self.desired(), self.cfg().grace_period, now)
    }

    /// Unload step: releases every loaded tile that is not kept and returns
    /// their coordinates, each once, for the caller to despawn.
    pub fn unload_stale(&mut self, now: u64) -> (gone: Vec<GridCoord>)
        requires
            old(self).wf(),
        ensures
            final(self).wf(),
            final(self).loaded_map() == old(self).loaded_after_unload(now),
            gone@.no_duplicates(),
            gone@.to_set() == old(self).unloaded_at(now),
            final(self).cfg() == old(self).cfg(),
            final(self).version() == old(self).version(),
            final(self).cache_map() == old(self).cache_map(),
            final(self).pending_map() == old(self).pending_map(),
            final(self).queued() == old(self).queued(),
            final(self).desired() == old(self).desired(),
    {
        let ghost ks = self.loaded.key_seq();
        proof {
            self.loaded.lemma_keys();
        }
        let mut kept: TileMap<LoadedTile> = TileMap::new();
        let mut gone: Vec<GridCoord> = Vec::new();
        let n = self.loaded.len();
        let mut i: usize = 0;
        assert(kept@ =~= Map::new(
            |c: GridCoord| ks.subrange(0, 0).contains(c) && self.keeps(c, now),
            |c: GridCoord| self.loaded_after_unload(now)[c],
        ));
        assert(gone@.to_set() =~= Set::new(|c: GridCoord| ks.subrange(0, 0).contains(c) && !self.keeps(c, now)));
        while i < n
            invariant
                self.wf(),
                ks == self.loaded.key_seq(),
                ks.no_duplicates(),
                ks.to_set() == self.loaded_map().dom(),
                forall|j: int| 0 <= j < ks.len() ==> #[trigger] self.loaded_map().contains_key(ks[j]),
                n == ks.len(),
                i <= n,
                kept.wf(),
                kept@ == Map::new(
                    |c: GridCoord| ks.subrange(0, i as int).contains(c) && self.keeps(c, now),
                    |c: GridCoord| self.loaded_after_unload(now)[c],
                ),
                gone@.no_duplicates(),
                gone@.to_set() == Set::new(|c: GridCoord| ks.subrange(0, i as int).contains(c) && !self.keeps(c, now)),
            decreases n - i,
        {
            let c = self.loaded.key_at(i);
            let t = self.loaded.value_at(i);
            let in_demand = self.desired.contains(c);
            let keep = in_demand || match self.config.grace_period {
                Some(g) => {
                    let e: u64 = if now >= t.last_seen { now - t.last_seen } else { 0 };
                    e <= g
                },
                None => false,
            };
            proof {
                assert(self.loaded_map().contains_key(c));
                assert(keep == self.keeps(c, now));
                assert forall|k: GridCoord| #[trigger] ks.subrange(0, i as int + 1).contains(k) <==> (ks.subrange(0, i as int).contains(k) || k == c) by {
                    lemma_prefix_contains(ks, i as int, k);
                }
                assert(!ks.subrange(0, i as int).contains(c)) by {
                    if ks.subrange(0, i as int).contains(c) {
                        let j = choose|j: int| 0 <= j < i && #[trigger] ks.subrange(0, i as int)[j] == c;
                        assert(ks[j] == ks[i as int]);
                    }
                }
            }
            if keep {
                let t2 = if in_demand { LoadedTile { artifact: t.artifact, last_seen: now } } else { t };
                kept.insert(c, t2);
                proof {
                    assert(t2 == self.loaded_after_unload(now)[c]);
                }
            } else {
                proof {
                    assert(!gone@.contains(c)) by {
                        if gone@.contains(c) {
                            let j = choose|j: int| 0 <= j < gone@.len() && #[trigger] gone@[j] == c;
                            assert(gone@.to_set().contains(c));
                        }
                    }
                }
                let ghost before = gone@;
                gone.push(c);
                proof {
                    lemma_push_distinct(before, c);
                }
            }
            i = i + 1;
            proof {
                assert(kept@ =~= Map::new(
                    |c: GridCoord| ks.subrange(0, i as int).contains(c) && self.keeps(c, now),
                    |c: GridCoord| self.loaded_after_unload(now)[c],
                ));
                assert(gone@.to_set() =~= Set::new(|c: GridCoord| ks.subrange(0, i as int).contains(c) && !self.keeps(c, now)));
            }
        }
        proof {
            assert(ks.subrange(0, n as int) =~= ks);
            assert forall|k: GridCoord| #[trigger] ks.contains(k) <==> self.loaded_map().contains_key(k) by {
                assert(ks.to_set().contains(k) == ks.contains(k));
            }
            assert(kept@ =~= self.loaded_after_unload(now));
            assert(gone@.to_set() =~= self.unloaded_at(now));
        }
        self.loaded = kept;
        proof {
            self.lemma_tables();
            self.lemma_same_views(old(self));
        }
        gone
    }

    /// `is_gap` for this state.
    pub open spec fn gap(&self, c: GridCoord) -> bool {
        is_gap(self.desired(), self.loaded_map(), self.pending_map(), c)
    }

    /// `stale_hit` for this state.
    pub open spec fn stale_hit(&self, c: GridCoord) -> bool {
        is_stale_hit(self.desired(), self.loaded_map(), self.cache_map(), self.version(), c)
    }

    /// `gaps_loaded` for this state.
    pub open spec fn loaded_after_gaps(&self, now: u64) -> Map<GridCoord, LoadedTile> {
        gaps_loaded(self.desired(), self.loaded_map(), self.pending_map(), self.cache_map(), self.version(), now)
    }

    /// `gaps_cache` for this state.
    pub open spec fn cache_after_gaps(&self) -> Map<GridCoord, CachedTile> {
        gaps_cache(self.desired(), self.loaded_map(), self.cache_map(), self.version())
    }

    /// `gaps_queue` for this state.
    pub open spec fn queue_after_gaps(&self) -> Set<GridCoord> {
        gaps_queue(self.desired(), self.loaded_map(), self.pending_map(), self.cache_map(), self.version())
    }

    /// `gaps_spawns` for this state.
    pub open spec fn spawns_for_gaps(&self) -> Set<(GridCoord, u64)> {
        gaps_spawns(self.desired(), self.loaded_map(), self.pending_map(), self.cache_map(), self.version())
    }

    /// `gaps_evictions` for this state.
    pub open spec fn evictions_for_gaps(&self) -> Set<(GridCoord, u64)> {
        gaps_evictions(self.desired(), self.loaded_map(), self.cache_map(), self.version())
    }

    /// Gap step: each desired coordinate that is not loaded has a stale cache
    /// entry evicted. If it is not pending either, it is spawned from a fresh
    /// entry, or else queued for a job. The queue is rebuilt from these gaps.
    pub fn resolve_gaps(&mut self, now: u64) -> (r: GapResolution)
        requires
            old(self).wf(),
        ensures
            final(self).wf(),
            final(self).loaded_map() == old(self).loaded_after_gaps(now),
            final(self).cache_map() == old(self).cache_after_gaps(),
            final(self).queued() == old(self).queue_after_gaps(),
            r.spawn@.no_duplicates(),
            r.spawn@.to_set() == old(self).spawns_for_gaps(),
            r.evict@.no_duplicates(),
            r.evict@.to_set() == old(self).evictions_for_gaps(),
            final(self).cfg() == old(self).cfg(),
            final(self).version() == old(self).version(),
            final(self).pending_map() == old(self).pending_map(),
            final(self).desired() == old(self).desired(),
    {
        let ghost o = *self;
        let ghost ds = self.desired.key_seq();
        proof {
            self.desired.lemma_keys();
            self.lemma_tables();
            self.lemma_same_views(&o);
        }
        self.queue = CoordSet::new();
        let mut spawn: Vec<(GridCoord, u64)> = Vec::new();
        let mut evict: Vec<(GridCoord, u64)> = Vec::new();
        let n = self.desired.len();
        let mut i: usize = 0;
        proof {
            assert(self.loaded@ =~= Map::new(
                |c: GridCoord| o.loaded_map().contains_key(c) || (ds.subrange(0, 0).contains(c) && o.gap(c) && o.fresh(c)),
                |c: GridCoord| o.loaded_after_gaps(now)[c],
            ));
            assert(self.cache@ =~= Map::new(
                |c: GridCoord| o.cache_map().contains_key(c) && !(ds.subrange(0, 0).contains(c) && o.stale_hit(c)),
                |c: GridCoord| o.cache_map()[c],
            ));
            assert(self.queue@ =~= Set::new(|c: GridCoord| ds.subrange(0, 0).contains(c) && o.gap(c) && !o.fresh(c)));
            assert(spawn@.to_set() =~= Set::new(|p: (GridCoord, u64)| ds.subrange(0, 0).contains(p.0) && o.spawns_for_gaps().contains(p)));
            assert(evict@.to_set() =~= Set::new(|p: (GridCoord, u64)| ds.subrange(0, 0).contains(p.0) && o.evictions_for_gaps().contains(p)));
        }
        while i < n
            invariant
                o.wf(),
                self.tables_wf(),
                ds == o.desired.key_seq(),
                ds.no_duplicates(),
                ds.to_set() == o.desired(),
                forall|j: int| 0 <= j < ds.len() ==> #[trigger] o.desired().contains(ds[j]),
                n == ds.len(),
                i <= n,
                self.config == o.config,
                self.cache_version == o.cache_version,
                self.pending@ == o.pending_map(),
                self.desired@ == o.desired(),
                self.desired.key_seq() == ds,
                self.loaded@ == Map::new(
                    |c: GridCoord| o.loaded_map().contains_key(c) || (ds.subrange(0, i as int).contains(c) && o.gap(c) && o.fresh(c)),
                    |c: GridCoord| o.loaded_after_gaps(now)[c],
                ),
                self.cache@ == Map::new(
                    |c: GridCoord| o.cache_map().contains_key(c) && !(ds.subrange(0, i as int).contains(c) && o.stale_hit(c)),
                    |c: GridCoord| o.cache_map()[c],
                ),
                self.queue@ == Set::new(|c: GridCoord| ds.subrange(0, i as int).contains(c) && o.gap(c) && !o.fresh(c)),
                spawn@.no_duplicates(),
                spawn@.to_set() == Set::new(|p: (GridCoord, u64)| ds.subrange(0, i as int).contains(p.0) && o.spawns_for_gaps().contains(p)),
                evict@.no_duplicates(),
                evict@.to_set() == Set::new(|p: (GridCoord, u64)| ds.subrange(0, i as int).contains(p.0) && o.evictions_for_gaps().contains(p)),
            decreases n - i,
        {
            let c = self.desired.key_at(i);
            proof {
                assert forall|k: GridCoord| #[trigger] ds.subrange(0, i as int + 1).contains(k) <==> (ds.subrange(0, i as int).contains(k) || k == c) by {
                    lemma_prefix_contains(ds, i as int, k);
                }
                assert(!ds.subrange(0, i as int).contains(c)) by {
                    if ds.subrange(0, i as int).contains(c) {
                        let j = choose|j: int| 0 <= j < i && #[trigger] ds.subrange(0, i as int)[j] == c;
                        assert(ds[j] == ds[i as int]);
                    }
                }
                assert(o.desired().contains(c));
            }
            if !self.loaded.contains(c) {
                let pending = self.pending.contains(c);
                let entry = self.cache.get(c);
                let fresh = match entry {
                    Some(e) => e.version == self.cache_version,
                    None => false,
                };
                assert(fresh == o.fresh(c));
                if fresh {
                    if !pending {
                        let e = entry.unwrap();
                        self.loaded.insert(c, LoadedTile { artifact: e.artifact, last_seen: now });
                        let ghost before = spawn@;
                        proof {
                            assert(!before.contains((c, e.artifact))) by {
                                if before.contains((c, e.artifact)) {
                                    assert(before.to_set().contains((c, e.artifact)));
                                }
                            }
                            lemma_push_distinct(before, (c, e.artifact));
                        }
                        spawn.push((c, e.artifact));
                    }
                } else {
                    match entry {
                        Some(e) => {
                            self.cache.remove(c);
                            let ghost before = evict@;
                            proof {
                                assert(!before.contains((c, e.artifact))) by {
                                    if before.contains((c, e.artifact)) {
                                        assert(before.to_set().contains((c, e.artifact)));
                                    }
                                }
                                lemma_push_distinct(before, (c, e.artifact));
                            }
                            evict.push((c, e.artifact));
                        },
                        None => {},
                    }
                    if !pending {
                        self.queue.insert(c);
                    }
                }
            }
            i = i + 1;
            proof {
                assert(self.loaded@ =~= Map::new(
                    |c: GridCoord| o.loaded_map().contains_key(c) || (ds.subrange(0, i as int).contains(c) && o.gap(c) && o.fresh(c)),
                    |c: GridCoord| o.loaded_after_gaps(now)[c],
                ));
                assert(self.cache@ =~= Map::new(
                    |c: GridCoord| o.cache_map().contains_key(c) && !(ds.subrange(0, i as int).contains(c) && o.stale_hit(c)),
                    |c: GridCoord| o.cache_map()[c],
                ));
                assert(self.queue@ =~= Set::new(|c: GridCoord| ds.subrange(0, i as int).contains(c) && o.gap(c) && !o.fresh(c)));
                assert(spawn@.to_set() =~= Set::new(|p: (GridCoord, u64)| ds.subrange(0, i as int).contains(p.0) && o.spawns_for_gaps().contains(p)));
                assert(evict@.to_set() =~= Set::new(|p: (GridCoord, u64)| ds.subrange(0, i as int).contains(p.0) && o.evictions_for_gaps().contains(p)));
            }
        }
        proof {
            assert(ds.subrange(0, n as int) =~= ds);
            assert forall|k: GridCoord| #[trigger] ds.contains(k) <==> o.desired().contains(k) by {
                assert(ds.to_set().contains(k) == ds.contains(k));
            }
            assert(self.loaded@ =~= o.loaded_after_gaps(now));
            assert(self.cache@ =~= o.cache_after_gaps());
            assert(self.queue@ =~= o.queue_after_gaps());
            assert(spawn@.to_set() =~= o.spawns_for_gaps());
            assert(evict@.to_set() =~= o.evictions_for_gaps());
            self.lemma_tables();
            self.lemma_same_views(&o);
        }
        GapResolution { spawn, evict }
    }

    /// `can_dispatch` for this state.
    pub open spec fn eligible(&self, c: GridCoord) -> bool {
        can_dispatch(self.queued(), self.loaded_map(), self.pending_map(), self.cache_map(), self.version(), c)
    }

    /// `dispatchable` for this state.
    pub open spec fn eligible_set(&self) -> Set<GridCoord> {
        dispatchable(self.queued(), self.loaded_map(), self.pending_map(), self.cache_map(), self.version())
    }

    /// How many jobs may still be launched.
    pub open spec fn capacity(&self) -> int {
        self.cfg().max_concurrent_tasks - self.pending_map().len()
    }

    /// `dispatch_pending` for this state.
    pub open spec fn pending_after_dispatch(&self, d: Seq<GridCoord>) -> Map<GridCoord, u64> {
        dispatch_pending(self.pending_map(), self.version(), d)
    }

    /// The eligible queued coordinates with their priority keys, in queue
    /// order.
    fn eligible_candidates(&self, spawners: &Vec<TerrainSpawner>) -> (r: (Vec<GridCoord>, Vec<u128>))
        requires
            self.wf(),
        ensures
            r.0@.no_duplicates(),
            r.0@.to_set() == self.eligible_set(),
            r.1@.len() == r.0@.len(),
            forall|j: int| 0 <= j < r.0@.len() ==> r.1@[j] == nearest_dist2(spawners@, #[trigger] r.0@[j]),
    {
        let ghost qs = self.queue.key_seq();
        proof {
            self.queue.lemma_keys();
        }
        let mut cands: Vec<GridCoord> = Vec::new();
        let mut keys: Vec<u128> = Vec::new();
        let nq = self.queue.len();
        let mut i: usize = 0;
        assert(cands@.to_set() =~= Set::new(|c: GridCoord| qs.subrange(0, 0).contains(c) && self.eligible(c)));
        while i < nq
            invariant
                self.wf(),
                qs == self.queue.key_seq(),
                qs.no_duplicates(),
                qs.to_set() == self.queued(),
                forall|j: int| 0 <= j < qs.len() ==> #[trigger] self.queued().contains(qs[j]),
                nq == qs.len(),
                i <= nq,
                cands@.no_duplicates(),
                cands@.to_set() == Set::new(|c: GridCoord| qs.subrange(0, i as int).contains(c) && self.eligible(c)),
                keys@.len() == cands@.len(),
                forall|j: int| 0 <= j < cands@.len() ==> keys@[j] == nearest_dist2(spawners@, #[trigger] cands@[j]),
            decreases nq - i,
        {
            let c = self.queue.key_at(i);
            proof {
                assert forall|k: GridCoord| #[trigger] qs.subrange(0, i as int + 1).contains(k) <==> (qs.subrange(0, i as int).contains(k) || k == c) by {
                    lemma_prefix_contains(qs, i as int, k);
                }
                assert(!qs.subrange(0, i as int).contains(c)) by {
                    if qs.subrange(0, i as int).contains(c) {
                        let j = choose|j: int| 0 <= j < i && #[trigger] qs.subrange(0, i as int)[j] == c;
                        assert(qs[j] == qs[i as int]);
                    }
                }
                assert(self.queued().contains(c));
            }
            if !self.loaded.contains(c) && !self.is_fresh(c) && !self.pending.contains(c) {
                let ghost before = cands@;
                proof {
                    assert(!before.contains(c)) by {
                        if before.contains(c) {
                            assert(before.to_set().contains(c));
                        }
                    }
                    lemma_push_distinct(before, c);
                }
                cands.push(c);
                keys.push(nearest_spawner_dist2(spawners, c));
            }
            i = i + 1;
            assert(cands@.to_set() =~= Set::new(|c: GridCoord| qs.subrange(0, i as int).contains(c) && self.eligible(c)));
        }
        proof {
            assert(qs.subrange(0, nq as int) =~= qs);
            assert forall|k: GridCoord| #[trigger] qs.contains(k) <==> self.queued().contains(k) by {
                assert(qs.to_set().contains(k) == qs.contains(k));
            }
            assert(cands@.to_set() =~= self.eligible_set());
        }
        (cands, keys)
    }

    /// Dispatch step: launches jobs for eligible queued coordinates, nearest
    /// to a spawner first, until the concurrency limit is reached. Returns the
    /// coordinates to generate, in launch order. Eligible coordinates left
    /// over stay queued; ineligible ones leave the queue. When no job can be
    /// launched (a zero limit, or as many jobs in flight as it allows), the
    /// step does nothing at all.
    pub fn dispatch(&mut self, spawners: &Vec<TerrainSpawner>) -> (d: Vec<GridCoord>)
        requires
            old(self).wf(),
        ensures
            final(self).wf(),
            nearest_first(spawners@, old(self).eligible_set(), old(self).capacity(), d@),
            final(self).pending_map() == old(self).pending_after_dispatch(d@),
            final(self).queued() == (if old(self).capacity() == 0 {
                old(self).queued()
            } else {
                Set::new(|c: GridCoord| old(self).eligible(c) && !d@.contains(c))
            }),
            old(self).cfg().max_concurrent_tasks == 0 ==> d@.len() == 0 && final(self).queued()
                == old(self).queued() && final(self).pending_map() == old(self).pending_map(),
            final(self).cfg() == old(self).cfg(),
            final(self).version() == old(self).version(),
            final(self).cache_map() == old(self).cache_map(),
            final(self).loaded_map() == old(self).loaded_map(),
            final(self).desired() == old(self).desired(),
    {
        let ghost o = *self;
        let ghost s = spawners@;
        proof {
            self.lemma_tables();
            self.lemma_same_views(&o);
        }
        if self.pending.len() >= self.config.max_concurrent_tasks {
            let d: Vec<GridCoord> = Vec::new();
            assert(o.pending_after_dispatch(d@) =~= o.pending_map());
            return d;
        }
        let (mut cands, mut keys) = self.eligible_candidates(spawners);
        let ghost n0 = cands@.len();
        proof {
            cands@.unique_seq_to_set();
            assert forall|c: GridCoord| #[trigger] cands@.contains(c) <==> o.eligible(c) by {
                assert(cands@.to_set().contains(c) == cands@.contains(c));
                assert(o.eligible_set().contains(c) == o.eligible(c));
            }
        }
        let cap = self.config.max_concurrent_tasks - self.pending.len();
        let mut d: Vec<GridCoord> = Vec::new();
        assert(self.pending@ =~= o.pending_after_dispatch(d@));
        while d.len() < cap && cands.len() > 0
            invariant
                o.wf(),
                s == spawners@,
                self.tables_wf(),
                self.config == o.config,
                self.cache_version == o.cache_version,
                self.cache@ == o.cache_map(),
                self.loaded@ == o.loaded_map(),
                self.queue@ == o.queued(),
                self.desired@ == o.desired(),
                self.pending@ == o.pending_after_dispatch(d@),
                self.pending@.dom().finite(),
                self.pending@.len() == o.pending_map().len() + d@.len(),
                cap == o.capacity(),
                d@.len() <= cap,
                n0 == o.eligible_set().len(),
                cands@.len() + d@.len() == n0,
                cands@.no_duplicates(),
                keys@.len() == cands@.len(),
                forall|j: int| 0 <= j < cands@.len() ==> keys@[j] == nearest_dist2(s, #[trigger] cands@[j]),
                forall|c: GridCoord| #[trigger] cands@.contains(c) ==> o.eligible(c) && !d@.contains(c),
                forall|c: GridCoord| o.eligible(c) ==> #[trigger] cands@.contains(c) || d@.contains(c),
                d@.no_duplicates(),
                forall|i: int| 0 <= i < d@.len() ==> o.eligible(#[trigger] d@[i]),
                forall|i: int, j: int| 0 <= i < j < d@.len() ==> goes_before(s, #[trigger] d@[i], #[trigger] d@[j]),
                forall|i: int, c: GridCoord| 0 <= i < d@.len() && #[trigger] cands@.contains(c) ==> goes_before(s, #[trigger] d@[i], c),
            decreases cands@.len(),
        {
            let m = pick_first(&cands, &keys, Ghost(s));
            let ghost before_c = cands@;
            let ghost before_d = d@;
            let c = cands.remove(m);
            keys.remove(m);
            proof {
                assert(before_c.contains(c)) by {
                    assert(before_c[m as int] == c);
                }
                assert(!before_d.contains(c));
                lemma_push_distinct(before_d, c);
                assert forall|k: GridCoord| #[trigger] cands@.contains(k) <==> (before_c.contains(k) && k != c) by {
                    if cands@.contains(k) {
                        let j = choose|j: int| 0 <= j < cands@.len() && #[trigger] cands@[j] == k;
                        let oj = if j < m { j } else { j + 1 };
                        assert(before_c[oj] == k);
                        assert(oj != m);
                    }
                    if before_c.contains(k) && k != c {
                        let oj = choose|j: int| 0 <= j < before_c.len() && #[trigger] before_c[j] == k;
                        assert(oj != m);
                        let j = if oj < m { oj } else { oj - 1 };
                        assert(cands@[j] == k);
                    }
                }
                assert(cands@.no_duplicates()) by {
                    assert forall|a: int, b: int| 0 <= a < cands@.len() && 0 <= b < cands@.len() && a != b implies cands@[a] != cands@[b] by {
                        let oa = if a < m { a } else { a + 1 };
                        let ob = if b < m { b } else { b + 1 };
                        assert(cands@[a] == before_c[oa]);
                        assert(cands@[b] == before_c[ob]);
                    }
                }
                assert forall|j: int| 0 <= j < cands@.len() implies keys@[j] == nearest_dist2(s, #[trigger] cands@[j]) by {
                    let oj = if j < m { j } else { j + 1 };
                    assert(cands@[j] == before_c[oj]);
                }
                assert forall|k: GridCoord| #[trigger] cands@.contains(k) implies goes_before(s, c, k) by {
                    let oj = choose|j: int| 0 <= j < before_c.len() && #[trigger] before_c[j] == k;
                    assert(oj != m);
                }
            }
            d.push(c);
            self.pending.insert(c, self.cache_version);
            proof {
                assert(self.pending@ =~= o.pending_after_dispatch(d@)) by {
                    assert forall|k: GridCoord| #[trigger] d@.contains(k) <==> (before_d.contains(k) || k == c) by {
                        assert(d@.to_set().contains(k) == d@.contains(k));
                        assert(before_d.to_set().contains(k) == before_d.contains(k));
                    }
                }
                assert(!o.pending_map().contains_key(c));
                assert(self.pending@.dom() =~= o.pending_after_dispatch(before_d).dom().insert(c));
                assert(!o.pending_after_dispatch(before_d).dom().contains(c));
                assert forall|k: GridCoord| #[trigger] d@.contains(k) <==> (before_d.contains(k) || k == c) by {
                    assert(d@.to_set().contains(k) == d@.contains(k));
                    assert(before_d.to_set().contains(k) == before_d.contains(k));
                }
                assert forall|i: int, j: int| 0 <= i < j < d@.len() implies goes_before(s, #[trigger] d@[i], #[trigger] d@[j]) by {
                    if j == d@.len() - 1 {
                        assert(d@[i] == before_d[i]);
                        assert(before_c.contains(c));
                    } else {
                        assert(d@[i] == before_d[i]);
                        assert(d@[j] == before_d[j]);
                    }
                }
                assert forall|i: int, k: GridCoord| 0 <= i < d@.len() && #[trigger] cands@.contains(k) implies goes_before(s, #[trigger] d@[i], k) by {
                    if i == d@.len() - 1 {
                    } else {
                        assert(d@[i] == before_d[i]);
                        assert(before_c.contains(k));
                    }
                }
                assert forall|i: int| 0 <= i < d@.len() implies o.eligible(#[trigger] d@[i]) by {
                    if i < d@.len() - 1 {
                        assert(d@[i] == before_d[i]);
                    }
                }
            }
        }
        self.queue = set_of(&cands);
        proof {
            assert(self.queue@ =~= Set::new(|c: GridCoord| o.eligible(c) && !d@.contains(c))) by {
                assert forall|k: GridCoord| #[trigger] self.queue@.contains(k) <==> (o.eligible(k) && !d@.contains(k)) by {
                    assert(cands@.to_set().contains(k) == cands@.contains(k));
                }
            }
            if d@.len() < cap {
                assert(cands@.len() == 0);
            }
            assert forall|i: int, c: GridCoord| 0 <= i < d@.len() && o.eligible(c) && !d@.contains(c) implies #[trigger] goes_before(s, d@[i], c) by {
                assert(cands@.contains(c));
            }
            self.lemma_tables();
            self.lemma_same_views(&o);
            assert forall|c: GridCoord| #[trigger] self.pending_map().contains_key(c) implies !self.loaded_map().contains_key(c) by {
                if !o.pending_map().contains_key(c) {
                    assert(d@.contains(c));
                    let i = choose|i: int| 0 <= i < d@.len() && #[trigger] d@[i] == c;
                    assert(o.eligible(d@[i]));
                }
            }
            assert forall|c: GridCoord| #[trigger] self.pending_map().contains_key(c) implies self.in_grid(c) by {
                if !o.pending_map().contains_key(c) {
                    let i = choose|i: int| 0 <= i < d@.len() && #[trigger] d@[i] == c;
                    assert(o.eligible(d@[i]));
                }
            }
        }
        d
    }

    /// One full tick at time `now`: record the spawners' demand, unload,
    /// resolve gaps, dispatch. Each part of the plan is the result of its step.
    pub fn tick(&mut self, spawners: &Vec<TerrainSpawner>, now: u64) -> (r: TickPlan)
        requires
            old(self).wf(),
        ensures
            final(self).wf(),
            final(self).cfg() == old(self).cfg(),
            final(self).version() == old(self).version(),
            ({
                let o = old(self);
                let ds = desired_set(spawners@, o.cfg().grid_min, o.cfg().grid_max);
                let g = o.cfg().grace_period;
                let v = o.version();
                let p = o.pending_map();
                let c0 = o.cache_map();
                let l1 = unload_result(o.loaded_map(), ds, g, now);
                let l2 = gaps_loaded(ds, l1, p, c0, v, now);
                let c1 = gaps_cache(ds, l1, c0, v);
                let q1 = gaps_queue(ds, l1, p, c0, v);
                let e = dispatchable(q1, l2, p, c1, v);
                &&& final(self).desired() == ds
                &&& final(self).loaded_map() == l2
                &&& final(self).cache_map() == c1
                &&& final(self).pending_map() == dispatch_pending(p, v, r.dispatch@)
                &&& final(self).queued() == (if o.cfg().max_concurrent_tasks - p.len() == 0 {
                    q1
                } else {
                    Set::new(|c: GridCoord| e.contains(c) && !r.dispatch@.contains(c))
                })
                &&& r.despawn@.no_duplicates()
                &&& r.despawn@.to_set() == unload_released(o.loaded_map(), ds, g, now)
                &&& r.spawn@.no_duplicates()
                &&& r.spawn@.to_set() == gaps_spawns(ds, l1, p, c0, v)
                &&& r.evict@.no_duplicates()
                &&& r.evict@.to_set() == gaps_evictions(ds, l1, c0, v)
                &&& nearest_first(spawners@, e, o.cfg().max_concurrent_tasks - p.len(), r.dispatch@)
            }),
    {
        self.set_demand(spawners);
        let despawn = self.unload_stale(now);
        let gaps = self.resolve_gaps(now);
        let dispatch = self.dispatch(spawners);
        TickPlan { despawn, spawn: gaps.spawn, evict: gaps.evict, dispatch }
    }

    /// Collect step for one finished job: the artifact built for `c` enters
    /// the cache under the current version, replacing any earlier entry, and
    /// `c` leaves the pending set. A tile is spawned when `c` is still desired;
    /// otherwise the artifact is only kept for a later visit. A coordinate
    /// with no job in flight changes nothing.
    pub fn complete_job(&mut self, c: GridCoord, artifact: u64, now: u64) -> (r: JobOutcome)
        requires
            old(self).wf(),
        ensures
            final(self).wf(),
            r.accepted == old(self).pending_map().contains_key(c),
            !r.accepted ==> r == (JobOutcome { accepted: false, spawned: false, released: None })
                && final(self).pending_map() == old(self).pending_map() && final(self).cache_map()
                == old(self).cache_map() && final(self).loaded_map() == old(self).loaded_map(),
            r.accepted ==> ({
                &&& final(self).pending_map() == old(self).pending_map().remove(c)
                &&& final(self).cache_map() == old(self).cache_map().insert(
                    c,
                    CachedTile { artifact, version: old(self).version() },
                )
                &&& r.released == (if old(self).cache_map().contains_key(c) {
                    Some(old(self).cache_map()[c].artifact)
                } else {
                    None::<u64>
                })
                &&& r.spawned == old(self).desired().contains(c)
                &&& final(self).loaded_map() == (if r.spawned {
                    old(self).loaded_map().insert(c, LoadedTile { artifact, last_seen: now })
                } else {
                    old(self).loaded_map()
                })
            }),
            final(self).cfg() == old(self).cfg(),
            final(self).version() == old(self).version(),
            final(self).queued() == old(self).queued(),
            final(self).desired() == old(self).desired(),
    {
        let ghost o = *self;
        proof {
            self.lemma_same_views(&o);
        }
        match self.pending.remove(c) {
            None => JobOutcome { accepted: false, spawned: false, released: None },
            Some(_) => {
                let old_entry = self.cache.get(c);
                self.cache.insert(c, CachedTile { artifact, version: self.cache_version });
                let released = match old_entry {
                    Some(e) => Some(e.artifact),
                    None => None,
                };
                let spawned = self.desired.contains(c);
                if spawned {
                    self.loaded.insert(c, LoadedTile { artifact, last_seen: now });
                }
                proof {
                    self.lemma_tables();
                    self.lemma_same_views(&o);
                    o.lemma_tables();
                    assert(self.pending_map().dom() =~= o.pending_map().dom().remove(c));
                }
                JobOutcome { accepted: true, spawned, released }
            },
        }
    }

    /// The live tiles among `live` that this manager does not track as
    /// loaded, in their given order: left behind by an outside reset, they
    /// are to be despawned.
    pub fn orphans(&self, live: &Vec<GridCoord>) -> (r: Vec<GridCoord>)
        requires
            self.wf(),
        ensures
            r@ == live@.filter(|c: GridCoord| !self.loaded_map().contains_key(c)),
    {
        let ghost keep = |c: GridCoord| !self.loaded_map().contains_key(c);
        let mut r: Vec<GridCoord> = Vec::new();
        let mut i: usize = 0;
        assert(live@.subrange(0, 0).filter(keep) =~= Seq::<GridCoord>::empty());
        while i < live.len()
            invariant
                self.wf(),
                i <= live@.len(),
                keep == (|c: GridCoord| !self.loaded_map().contains_key(c)),
                r@ == live@.subrange(0, i as int).filter(keep),
            decreases live@.len() - i,
        {
            let c = live[i];
            proof {
                assert(live@.subrange(0, i as int + 1) =~= live@.subrange(0, i as int).push(c));
                live@.subrange(0, i as int).lemma_filter_push(c, keep);
            }
            if !self.loaded.contains(c) {
                r.push(c);
            }
            i = i + 1;
        }
        assert(live@.subrange(0, live@.len() as int) =~= live@);
        r
    }

    /// The queue after a request for `c`: it joins unless it is outside the
    /// grid, loaded, or pending. A coordinate is queued at most once.
    pub open spec fn queue_after_request(&self, c: GridCoord) -> Set<GridCoord> {
        if self.in_grid(c) && !self.loaded_map().contains_key(c) && !self.pending_map().contains_key(c) {
            self.queued().insert(c)
        } else {
            self.queued()
        }
    }

    /// Asks for a job for `c` at the next dispatch. Asking for a coordinate
    /// that is out of the grid, loaded, pending or already queued does nothing.
    pub fn request(&mut self, c: GridCoord)
        requires
            old(self).wf(),
        ensures
            final(self).wf(),
            final(self).queued() == old(self).queue_after_request(c),
            final(self).cfg() == old(self).cfg(),
            final(self).version() == old(self).version(),
            final(self).cache_map() == old(self).cache_map(),
            final(self).loaded_map() == old(self).loaded_map(),
            final(self).pending_map() == old(self).pending_map(),
            final(self).desired() == old(self).desired(),
    {
        let lo = self.config.grid_min;
        let hi = self.config.grid_max;
        if lo.x <= c.x && c.x <= hi.x && lo.y <= c.y && c.y <= hi.y && !self.loaded.contains(c)
            && !self.pending.contains(c) {
            self.queue.insert(c);
        }
        proof {
            self.lemma_tables();
            self.lemma_same_views(old(self));
        }
    }

    /// Removes the cache entry of `c`, if any, and returns its artifact for
    /// the caller to release. A loaded tile at `c` is left as it is and keeps
    /// its own artifact handle (see `loaded_tile`).
    pub fn evict(&mut self, c: GridCoord) -> (r: Option<u64>)
        requires
            old(self).wf(),
        ensures
            final(self).wf(),
            final(self).cache_map() == old(self).cache_map().remove(c),
            r == (if old(self).cache_map().contains_key(c) {
                Some(old(self).cache_map()[c].artifact)
            } else {
                None::<u64>
            }),
            final(self).cfg() == old(self).cfg(),
            final(self).version() == old(self).version(),
            final(self).loaded_map() == old(self).loaded_map(),
            final(self).pending_map() == old(self).pending_map(),
            final(self).queued() == old(self).queued(),
            final(self).desired() == old(self).desired(),
    {
        let r = match self.cache.remove(c) {
            Some(e) => Some(e.artifact),
            None => None,
        };
        proof {
            self.lemma_tables();
            self.lemma_same_views(old(self));
        }
        r
    }

    /// Moves to the next cache version, which makes every cached entry stale
    /// at once. At `u64::MAX` the version stays.
    pub fn bump_cache_version(&mut self)
        requires
            old(self).wf(),
        ensures
            final(self).wf(),
            final(self).version() == (if old(self).version() < u64::MAX {
                old(self).version() + 1
            } else {
                old(self).version() as int
            }),
            final(self).cfg() == old(self).cfg(),
            final(self).cache_map() == old(self).cache_map(),
            final(self).loaded_map() == old(self).loaded_map(),
            final(self).pending_map() == old(self).pending_map(),
            final(self).queued() == old(self).queued(),
            final(self).desired() == old(self).desired(),
    {
        if self.cache_version < u64::MAX {
            self.cache_version = self.cache_version + 1;
        }
        proof {
            self.lemma_same_views(old(self));
        }
    }
}

} // verus!
