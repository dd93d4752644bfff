//! The read path: a point lookup that goes through the memtable and then
//! through the pages, newest first.
//!
//! Pages are read from their files by the caller. The lookup runs as far as
//! the page cache carries it. Where it needs a page that the cache does not
//! hold it stops and names the page; the caller reads it and resumes the
//! lookup with it.

use vstd::prelude::*;
use crate::cache::lru::{position_of, promoted, put_model, lemma_position_of, LruCache};
use crate::engine::metrics::{bump, bumped, EngineMetrics};
use crate::lsm::level::{metas_view, range_holds, PageMeta, PageMetaModel};
use crate::meta::{levels_view, TableMeta};
use crate::storage::memtable::MemTable;
use crate::storage::page::builder::{Page, PageModel};
use crate::storage::page::lookup::{page_lookup, LookupModel, PageLookupResult};
use crate::storage::record::{Record, RecordModel};
use crate::storage::versions::{latest_visible, versions_of};

verus! {

/// How a lookup ends or where it stops.
#[derive(Debug, PartialEq, Eq)]
pub enum ReadStep {
    /// The record that the snapshot sees.
    Found(Record),
    /// The snapshot sees no record of the key: there is no version, or the
    /// version it sees is a tombstone.
    NotPresent,
    /// The lookup needs the page that stands `offset` places from the end
    /// of level `level`.
    NeedPage { level: usize, offset: usize },
}

/// The end of a lookup, or where it stops, as a mathematical value.
pub enum Outcome {
    Found(RecordModel),
    NotPresent,
    NeedPage { level: nat, offset: nat },
}

/// What a lookup in the pages comes to: its outcome, the cache as the
/// lookup leaves it, and how many pages it found in the cache.
pub struct Scan {
    pub outcome: Outcome,
    pub cache: Seq<(u64, Page)>,
    pub hits: nat,
}

/// The same with `h` more pages found in the cache.
pub open spec fn with_hits(s: Scan, h: nat) -> Scan {
    Scan { hits: s.hits + h, ..s }
}

/// A counter after `k` additions of one.
pub open spec fn bumped_by(n: u64, k: nat) -> u64 {
    if n + k > u64::MAX {
        u64::MAX
    } else {
        (n + k) as u64
    }
}

/// What a page answers: the version that the snapshot sees, and nothing
/// where the page holds none that it sees.
pub open spec fn page_answer(p: PageModel, id: Seq<char>, snapshot: u64) -> Option<RecordModel> {
    match page_lookup(p, id, snapshot) {
        LookupModel::Found(r) => Some(r),
        _ => None,
    }
}

/// The outcome that a version gives: the record, or "not present" for a
/// tombstone.
pub open spec fn outcome_of(r: RecordModel) -> Outcome {
    if r.is_tombstone {
        Outcome::NotPresent
    } else {
        Outcome::Found(r)
    }
}

/// The lookup in the pages, from the page that stands `offset` places from
/// the end of level `level` on. Levels are gone through from level zero up,
/// the pages of a level from the last to the first. A page whose range does
/// not hold the id is passed over. A page that the cache holds is looked
/// into and becomes the most recently used; the first page with a version
/// that the snapshot sees decides. A page that the cache does not hold stops
/// the lookup.
pub open spec fn scan(
    levels: Seq<Seq<PageMetaModel>>,
    level: nat,
    offset: nat,
    cache: Seq<(u64, Page)>,
    id: Seq<char>,
    snapshot: u64,
) -> Scan
    decreases levels.len() - level, (if level < levels.len() {
        levels[level as int].len() - offset
    } else {
        0
    }),
{
    if level >= levels.len() {
        Scan { outcome: Outcome::NotPresent, cache, hits: 0 }
    } else if offset >= levels[level as int].len() {
        scan(levels, level + 1, 0, cache, id, snapshot)
    } else {
        let m = levels[level as int][levels[level as int].len() - 1 - offset];
        if !range_holds(m, id) {
            scan(levels, level, offset + 1, cache, id, snapshot)
        } else {
            let at = position_of(cache, m.page_id);
            if at < 0 {
                Scan { outcome: Outcome::NeedPage { level, offset }, cache, hits: 0 }
            } else {
                let seen = promoted(cache, at);
                match page_answer(cache[at].1@, id, snapshot) {
                    Some(r) => Scan { outcome: outcome_of(r), cache: seen, hits: 1 },
                    None => with_hits(scan(levels, level, offset + 1, seen, id, snapshot), 1),
                }
            }
        }
    }
}

/// Whether the step is the outcome.
pub open spec fn step_is(step: ReadStep, outcome: Outcome) -> bool {
    match step {
        ReadStep::Found(rec) => outcome == Outcome::Found(rec@),
        ReadStep::NotPresent => outcome == Outcome::NotPresent,
        ReadStep::NeedPage { level, offset } => outcome == (Outcome::NeedPage {
            level: level as nat,
            offset: offset as nat,
        }),
    }
}

/// The counters after a lookup in the pages.
pub open spec fn counted(before: EngineMetrics, s: Scan) -> EngineMetrics {
    EngineMetrics {
        page_cache_hits: bumped_by(before.page_cache_hits, s.hits),
        page_cache_misses: if s.outcome is NeedPage {
            bumped(before.page_cache_misses)
        } else {
            before.page_cache_misses
        },
        ..before
    }
}

/// Carries out lookups.
#[derive(Debug, Clone, Copy, PartialEq, Eq, Structural)]
pub struct Reader;

impl Reader {
    /// A reader.
    pub fn new() -> (r: Self) {
        Reader
    }

    /// The entry of the page that a lookup asked for, if the manifest has
    /// it.
    pub fn page_at<'a>(&self, meta: &'a TableMeta, level: usize, offset: usize) -> (r: Option<
        &'a PageMeta,
    >)
        ensures
            match r {
                Some(m) => level < meta@.level.len() && offset < meta@.level[level as int].len()
                    && m@ == meta@.level[level as int][meta@.level[level as int].len() - 1
                    - offset],
                None => !(level < meta@.level.len() && offset < meta@.level[level as int].len()),
            },
    {
        if level < meta.level.len() {
            proof {
                assert(meta@.level[level as int] == metas_view(meta.level@[level as int]@));
            }
            let pages = &meta.level[level];
            if offset < pages.len() {
                let at = pages.len() - 1 - offset;
                proof {
                    assert(metas_view(pages@)[at as int] == pages@[at as int]@);
                }
                return Some(&pages[at]);
            }
        }
        None
    }

    /// The lookup in the pages from a place on.
    fn run(
        &self,
        meta: &TableMeta,
        id: &str,
        snapshot: u64,
        page_cache: &mut LruCache<Page>,
        metrics: &mut EngineMetrics,
        from_level: usize,
        from_offset: usize,
    ) -> (r: ReadStep)
        ensures
            step_is(
                r,
                scan(
                    meta@.level,
                    from_level as nat,
                    from_offset as nat,
                    old(page_cache)@,
                    id@,
                    snapshot,
                ).outcome,
            ),
            final(page_cache)@ == scan(
                meta@.level,
                from_level as nat,
                from_offset as nat,
                old(page_cache)@,
                id@,
                snapshot,
            ).cache,
            final(page_cache).capacity() == old(page_cache).capacity(),
            *final(metrics) == counted(
                *old(metrics),
                scan(
                    meta@.level,
                    from_level as nat,
                    from_offset as nat,
                    old(page_cache)@,
                    id@,
                    snapshot,
                ),
            ),
    {
        let ghost levels = meta@.level;
        let ghost whole = scan(
            levels,
            from_level as nat,
            from_offset as nat,
            page_cache@,
            id@,
            snapshot,
        );
        let mut level: usize = from_level;
        let mut offset: usize = from_offset;
        let ghost mut hits: nat = 0;
        loop
            invariant
                levels == meta@.level,
                whole == scan(
                    levels,
                    from_level as nat,
                    from_offset as nat,
                    old(page_cache)@,
                    id@,
                    snapshot,
                ),
                whole == with_hits(
                    scan(levels, level as nat, offset as nat, page_cache@, id@, snapshot),
                    hits,
                ),
                page_cache.capacity() == old(page_cache).capacity(),
                *metrics == (EngineMetrics {
                    page_cache_hits: bumped_by(old(metrics).page_cache_hits, hits),
                    ..*old(metrics)
                }),
            decreases
                    meta@.level.len() - level,
                    (if level < meta@.level.len() {
                        meta@.level[level as int].len() - offset
                    } else {
                        0
                    }),
        {
            if level >= meta.level.len() {
                return ReadStep::NotPresent;
            }
            proof {
                assert(levels[level as int] == metas_view(meta.level@[level as int]@));
            }
            let pages = &meta.level[level];
            if offset >= pages.len() {
                level = level + 1;
                offset = 0;
                continue ;
            }
            let at = pages.len() - 1 - offset;
            let m = &pages[at];
            proof {
                assert(metas_view(pages@)[at as int] == m@);
            }
            if !m.holds(id) {
                offset = offset + 1;
                continue ;
            }
            proof {
                lemma_position_of(page_cache@, m.page_id);
            }
            let ghost before = page_cache@;
            match page_cache.get(&m.page_id) {
                None => {
                    metrics.page_cache_misses = bump(metrics.page_cache_misses);
                    return ReadStep::NeedPage { level, offset };
                },
                Some(page) => {
                    metrics.page_cache_hits = bump(metrics.page_cache_hits);
                    proof {
                        hits = hits + 1;
                    }
                    match page.get(id, snapshot) {
                        PageLookupResult::Found(rec) => {
                            if rec.is_tombstone {
                                return ReadStep::NotPresent;
                            } else {
                                return ReadStep::Found(rec.clone());
                            }
                        },
                        _ => {
                            offset = offset + 1;
                        },
                    }
                },
            }
        }
    }

    /// Looks `id` up at the snapshot.
    ///
    /// Where the memtable holds a version that the snapshot sees, that
    /// version decides: the record, or "not present" for a tombstone. Else
    /// the pages are gone through as `scan` says.
    pub fn get(
        &self,
        meta: &TableMeta,
        memtable: &MemTable,
        id: &str,
        snapshot: u64,
        page_cache: &mut LruCache<Page>,
        metrics: &mut EngineMetrics,
    ) -> (r: ReadStep)
        ensures
            final(page_cache).capacity() == old(page_cache).capacity(),
            match latest_visible(versions_of(memtable@, id@), snapshot) {
                Some(rec) => step_is(r, outcome_of(rec)) && final(page_cache)@ == old(
                    page_cache,
                )@ && *final(metrics) == (EngineMetrics {
                    reads: bumped(old(metrics).reads),
                    ..*old(metrics)
                }),
                None => {
                    let s = scan(meta@.level, 0, 0, old(page_cache)@, id@, snapshot);
                    &&& step_is(r, s.outcome)
                    &&& final(page_cache)@ == s.cache
                    &&& *final(metrics) == counted(
                        EngineMetrics { reads: bumped(old(metrics).reads), ..*old(metrics) },
                        s,
                    )
                },
            },
    {
        metrics.reads = bump(metrics.reads);
        match memtable.latest(id, snapshot) {
            Some(rec) => {
                if rec.is_tombstone {
                    ReadStep::NotPresent
                } else {
                    ReadStep::Found(rec.clone())
                }
            },
            None => self.run(meta, id, snapshot, page_cache, metrics, 0, 0),
        }
    }

    /// Goes on with a lookup that stopped at `NeedPage { level, offset }`,
    /// with the page that was read for it. The page goes into the cache. It
    /// is looked into, and where it holds no version that the snapshot sees
    /// the lookup goes on behind it.
    pub fn resume(
        &self,
        meta: &TableMeta,
        id: &str,
        snapshot: u64,
        page_cache: &mut LruCache<Page>,
        metrics: &mut EngineMetrics,
        level: usize,
        offset: usize,
        page_id: u64,
        page: Page,
    ) -> (r: ReadStep)
        ensures
            final(page_cache).capacity() == old(page_cache).capacity(),
            ({
                let cached = put_model(
                    old(page_cache)@,
                    old(page_cache).capacity(),
                    page_id,
                    page,
                );
                let loaded = EngineMetrics {
                    pages_read_from_disk: bumped(old(metrics).pages_read_from_disk),
                    page_cache_evictions: if position_of(old(page_cache)@, page_id) < 0 && old(
                        page_cache,
                    )@.len() == old(page_cache).capacity() {
                        bumped(old(metrics).page_cache_evictions)
                    } else {
                        old(metrics).page_cache_evictions
                    },
                    ..*old(metrics)
                };
                match page_answer(page@, id@, snapshot) {
                    Some(rec) => step_is(r, outcome_of(rec)) && final(page_cache)@ == cached
                        && *final(metrics) == loaded,
                    None => {
                        let s = scan(
                            meta@.level,
                            level as nat,
                            (offset + 1) as nat,
                            cached,
                            id@,
                            snapshot,
                        );
                        &&& step_is(r, s.outcome)
                        &&& final(page_cache)@ == s.cache
                        &&& *final(metrics) == counted(loaded, s)
                    },
                }
            }),
    {
        metrics.pages_read_from_disk = bump(metrics.pages_read_from_disk);
        let answer = match page.get(id, snapshot) {
            PageLookupResult::Found(rec) => Some(rec.clone()),
            _ => None,
        };
        page_cache.put(page_id, page, metrics);
        match answer {
            Some(rec) => {
                if rec.is_tombstone {
                    ReadStep::NotPresent
                } else {
                    ReadStep::Found(rec)
                }
            },
            None => {
                if offset == usize::MAX {
                    // no level holds that many pages: the lookup goes on with the
                    // next level from here as from one place further
                    if level < meta.level.len() {
                        let held = meta.level[level].len();
                        proof {
                            assert(meta@.level[level as int] == metas_view(
                                meta.level@[level as int]@,
                            ));
                            assert(meta@.level[level as int].len() == held);
                        }
                    }
                    self.run(meta, id, snapshot, page_cache, metrics, level, offset)
                } else {
                    self.run(meta, id, snapshot, page_cache, metrics, level, offset + 1)
                }
            },
        }
    }
}

} // verus!
