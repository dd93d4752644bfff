//! What a lookup returns.
//!
//! The lookup goes through groups of versions of the key: those of the
//! memtable first, then those of one page after the other. Where no
//! version of an earlier group has a smaller seqno than a version of a
//! later group, the first group that holds a version which the snapshot
//! sees holds a version with the largest seqno that it sees anywhere.
//! The lookup as it runs on the cache, stopping for pages and going on with
//! them, comes to the same as the lookup that has every page at hand.

use vstd::prelude::*;
use crate::cache::lru::{lemma_position_of, position_of, promoted, put_model};
use crate::engine::reader::{outcome_of, page_answer, scan, Outcome};
use crate::keys::key_lt;
use crate::lsm::level::{range_holds, PageMetaModel};
use crate::storage::page::builder::{page_wf, Page, PageModel};
use crate::storage::page::lookup::{page_lookup, LookupModel};
use crate::storage::record::RecordModel;
use crate::storage::versions::{
    latest_visible, lemma_latest_visible, lemma_versions_none, sorted_by_id, versions_of,
};

verus! {

/// The versions of `id` that the lookup sees in a page: those of the page,
/// unless the range in the manifest or in the header leaves `id` out.
pub open spec fn seen_versions(m: PageMetaModel, p: PageModel, id: Seq<char>) -> Seq<RecordModel> {
    if range_holds(m, id) && !(key_lt(id, p.header.min_id) || key_lt(p.header.max_id, id)) {
        versions_of(p.records, id)
    } else {
        Seq::empty()
    }
}

/// The first version that the snapshot sees, going through the groups.
pub open spec fn first_visible(groups: Seq<Seq<RecordModel>>, snapshot: u64) -> Option<RecordModel>
    decreases groups.len(),
{
    if groups.len() == 0 {
        None
    } else {
        match latest_visible(groups[0], snapshot) {
            Some(r) => Some(r),
            None => first_visible(groups.drop_first(), snapshot),
        }
    }
}

/// No version of an earlier group has a smaller seqno than a version of a
/// later group.
pub open spec fn newer_first(groups: Seq<Seq<RecordModel>>) -> bool {
    forall|a: int, b: int, x: int, y: int|
        0 <= a < b < groups.len() && 0 <= x < groups[a].len() && 0 <= y < groups[b].len() ==> (
        #[trigger] groups[a][x]).seqno >= (#[trigger] groups[b][y]).seqno
}

/// Where newer groups come first, the first version that the snapshot sees
/// is the one with the largest seqno that it sees in any group; there is
/// none only where every version of every group is above the snapshot.
pub proof fn lemma_first_visible_is_latest(groups: Seq<Seq<RecordModel>>, snapshot: u64)
    requires
        newer_first(groups),
    ensures
        match first_visible(groups, snapshot) {
            Some(r) => r.seqno <= snapshot && (exists|g: int, x: int|
                0 <= g < groups.len() && 0 <= x < groups[g].len() && #[trigger] groups[g][x] == r)
                && forall|g: int, x: int|
                0 <= g < groups.len() && 0 <= x < groups[g].len() && (
                #[trigger] groups[g][x]).seqno <= snapshot ==> groups[g][x].seqno <= r.seqno,
            None => forall|g: int, x: int|
                0 <= g < groups.len() && 0 <= x < groups[g].len() ==> (
                #[trigger] groups[g][x]).seqno > snapshot,
        },
    decreases groups.len(),
{
    if groups.len() > 0 {
        let g0 = groups[0];
        let rest = groups.drop_first();
        lemma_latest_visible(g0, snapshot);
        assert forall|a: int, b: int, x: int, y: int|
            0 <= a < b < rest.len() && 0 <= x < rest[a].len() && 0 <= y < rest[b].len() implies (
        #[trigger] rest[a][x]).seqno >= (#[trigger] rest[b][y]).seqno by {
            assert(rest[a] == groups[a + 1]);
            assert(rest[b] == groups[b + 1]);
            assert(groups[a + 1][x].seqno >= groups[b + 1][y].seqno);
        }
        match latest_visible(g0, snapshot) {
            Some(r) => {
                let x0 = choose|x: int| 0 <= x < g0.len() && g0[x] == r;
                assert(groups[0][x0] == r);
                assert forall|g: int, x: int|
                    0 <= g < groups.len() && 0 <= x < groups[g].len() && (
                    #[trigger] groups[g][x]).seqno <= snapshot implies groups[g][x].seqno
                    <= r.seqno by {
                    if g > 0 {
                        assert(groups[0][x0].seqno >= groups[g][x].seqno);
                    } else {
                        assert(g0[x].seqno <= snapshot);
                    }
                }
            },
            None => {
                lemma_first_visible_is_latest(rest, snapshot);
                match first_visible(rest, snapshot) {
                    Some(r) => {
                        let (g1, x1) = choose|g: int, x: int|
                            0 <= g < rest.len() && 0 <= x < rest[g].len() && #[trigger] rest[g][x]
                                == r;
                        assert(rest[g1] == groups[g1 + 1]);
                        assert(groups[g1 + 1][x1] == r);
                        assert forall|g: int, x: int|
                            0 <= g < groups.len() && 0 <= x < groups[g].len() && (
                            #[trigger] groups[g][x]).seqno <= snapshot implies groups[g][x].seqno
                            <= r.seqno by {
                            if g > 0 {
                                assert(rest[g - 1] == groups[g]);
                                assert(rest[g - 1][x].seqno <= r.seqno);
                            } else {
                                assert(g0[x].seqno > snapshot);
                            }
                        }
                    },
                    None => {
                        assert forall|g: int, x: int|
                            0 <= g < groups.len() && 0 <= x < groups[g].len() implies (
                        #[trigger] groups[g][x]).seqno > snapshot by {
                            if g > 0 {
                                assert(rest[g - 1] == groups[g]);
                                assert(rest[g - 1][x].seqno > snapshot);
                            } else {
                                assert(g0[x].seqno > snapshot);
                            }
                        }
                    },
                }
            },
        }
    }
}

/// What a page answers is the latest version that the snapshot sees among
/// the versions that the lookup sees in it.
pub proof fn lemma_page_answer(m: PageMetaModel, p: PageModel, id: Seq<char>, snapshot: u64)
    requires
        range_holds(m, id),
    ensures
        page_answer(p, id, snapshot) == latest_visible(seen_versions(m, p, id), snapshot),
{
    if versions_of(p.records, id).len() == 0 {
        assert(versions_of(p.records, id) =~= Seq::<RecordModel>::empty());
    }
}

/// Leaving a page out by its range loses no version, where the page is as
/// it was built and the manifest holds the range of its header.
pub proof fn lemma_pruning_loses_nothing(m: PageMetaModel, p: PageModel, id: Seq<char>)
    requires
        page_wf(p),
        m.min_id == p.header.min_id,
        m.max_id == p.header.max_id,
    ensures
        versions_of(p.records, id) == (if range_holds(m, id) {
            seen_versions(m, p, id)
        } else {
            Seq::<RecordModel>::empty()
        }),
{
    if !range_holds(m, id) {
        let rs = p.records;
        assert forall|i: int| 0 <= i < rs.len() implies (#[trigger] rs[i]).id != id by {
            if rs[i].id == id {
                // the first id is not after it and the last not before it
                if i > 0 {
                    assert(crate::keys::key_le(rs[0].id, rs[i].id));
                }
                if i < rs.len() - 1 {
                    assert(crate::keys::key_le(rs[i].id, rs[rs.len() - 1].id));
                }
                crate::keys::lemma_key_lt_irreflexive(id);
            }
        }
        lemma_versions_none(rs, id);
    }
}

/// The lookup in the pages with every page at hand: `store` gives the page
/// of each page id.
pub open spec fn lookup_pages(
    levels: Seq<Seq<PageMetaModel>>,
    store: Map<u64, PageModel>,
    level: nat,
    offset: nat,
    id: Seq<char>,
    snapshot: u64,
) -> Option<RecordModel>
    decreases levels.len() - level, (if level < levels.len() {
        levels[level as int].len() - offset
    } else {
        0
    }),
{
    if level >= levels.len() {
        None
    } else if offset >= levels[level as int].len() {
        lookup_pages(levels, store, level + 1, 0, id, snapshot)
    } else {
        let m = levels[level as int][levels[level as int].len() - 1 - offset];
        if !range_holds(m, id) {
            lookup_pages(levels, store, level, offset + 1, id, snapshot)
        } else {
            match page_answer(store[m.page_id], id, snapshot) {
                Some(r) => Some(r),
                None => lookup_pages(levels, store, level, offset + 1, id, snapshot),
            }
        }
    }
}

/// The groups of versions that the lookup in the pages goes through, in its
/// order.
pub open spec fn groups_from(
    levels: Seq<Seq<PageMetaModel>>,
    store: Map<u64, PageModel>,
    level: nat,
    offset: nat,
    id: Seq<char>,
) -> Seq<Seq<RecordModel>>
    decreases levels.len() - level, (if level < levels.len() {
        levels[level as int].len() - offset
    } else {
        0
    }),
{
    if level >= levels.len() {
        Seq::empty()
    } else if offset >= levels[level as int].len() {
        groups_from(levels, store, level + 1, 0, id)
    } else {
        let m = levels[level as int][levels[level as int].len() - 1 - offset];
        seq![seen_versions(m, store[m.page_id], id)] + groups_from(
            levels,
            store,
            level,
            offset + 1,
            id,
        )
    }
}

/// The lookup in the pages gives the first version that the snapshot sees
/// in the groups.
pub proof fn lemma_lookup_is_first_visible(
    levels: Seq<Seq<PageMetaModel>>,
    store: Map<u64, PageModel>,
    level: nat,
    offset: nat,
    id: Seq<char>,
    snapshot: u64,
)
    ensures
        lookup_pages(levels, store, level, offset, id, snapshot) == first_visible(
            groups_from(levels, store, level, offset, id),
            snapshot,
        ),
    decreases levels.len() - level, (if level < levels.len() {
        levels[level as int].len() - offset
    } else {
        0
    }),
{
    if level >= levels.len() {
    } else if offset >= levels[level as int].len() {
        lemma_lookup_is_first_visible(levels, store, level + 1, 0, id, snapshot);
    } else {
        let m = levels[level as int][levels[level as int].len() - 1 - offset];
        let g = seen_versions(m, store[m.page_id], id);
        let rest = groups_from(levels, store, level, offset + 1, id);
        let all = seq![g] + rest;
        lemma_lookup_is_first_visible(levels, store, level, offset + 1, id, snapshot);
        assert(all[0] == g);
        assert(all.drop_first() =~= rest);
        if range_holds(m, id) {
            lemma_page_answer(m, store[m.page_id], id, snapshot);
        }
    }
}

/// The outcome of a lookup that found `r`, or nothing.
pub open spec fn answer_outcome(r: Option<RecordModel>) -> Outcome {
    match r {
        Some(x) => outcome_of(x),
        None => Outcome::NotPresent,
    }
}

/// What a lookup returns. The groups are the versions of the key in the
/// memtable, then those in the pages in the order of the lookup. Where newer
/// groups come first, the lookup gives the version with the largest seqno
/// that is not above the snapshot, among all versions of the key in the
/// memtable and in the pages; it gives "not present" where that version is a
/// tombstone or there is none.
pub proof fn lemma_get_returns_latest(
    mem: Seq<RecordModel>,
    levels: Seq<Seq<PageMetaModel>>,
    store: Map<u64, PageModel>,
    id: Seq<char>,
    snapshot: u64,
)
    requires
        newer_first(seq![versions_of(mem, id)] + groups_from(levels, store, 0, 0, id)),
    ensures
        ({
            let groups = seq![versions_of(mem, id)] + groups_from(levels, store, 0, 0, id);
            let found = match latest_visible(versions_of(mem, id), snapshot) {
                Some(r) => Some(r),
                None => lookup_pages(levels, store, 0, 0, id, snapshot),
            };
            &&& found == first_visible(groups, snapshot)
            &&& match found {
                Some(r) => r.seqno <= snapshot && (exists|g: int, x: int|
                    0 <= g < groups.len() && 0 <= x < groups[g].len() && #[trigger] groups[g][x]
                        == r) && forall|g: int, x: int|
                    0 <= g < groups.len() && 0 <= x < groups[g].len() && (
                    #[trigger] groups[g][x]).seqno <= snapshot ==> groups[g][x].seqno <= r.seqno,
                None => forall|g: int, x: int|
                    0 <= g < groups.len() && 0 <= x < groups[g].len() ==> (
                    #[trigger] groups[g][x]).seqno > snapshot,
            }
        }),
{
    let rest = groups_from(levels, store, 0, 0, id);
    let groups = seq![versions_of(mem, id)] + rest;
    assert(groups[0] == versions_of(mem, id));
    assert(groups.drop_first() =~= rest);
    lemma_lookup_is_first_visible(levels, store, 0, 0, id, snapshot);
    lemma_first_visible_is_latest(groups, snapshot);
}

/// Every page in the cache is the page that the store has under its id.
pub open spec fn cache_agrees(cache: Seq<(u64, Page)>, store: Map<u64, PageModel>) -> bool {
    forall|i: int| 0 <= i < cache.len() ==> (#[trigger] cache[i]).1@ == store[cache[i].0]
}

/// A page that goes into the cache under its id keeps the cache in
/// agreement with the store.
pub proof fn lemma_put_agrees(
    cache: Seq<(u64, Page)>,
    capacity: nat,
    store: Map<u64, PageModel>,
    page_id: u64,
    page: Page,
)
    requires
        cache_agrees(cache, store),
        page@ == store[page_id],
    ensures
        cache_agrees(put_model(cache, capacity, page_id, page), store),
{
    let out = put_model(cache, capacity, page_id, page);
    lemma_position_of(cache, page_id);
    let i = position_of(cache, page_id);
    assert forall|j: int| 0 <= j < out.len() implies (#[trigger] out[j]).1@ == store[out[j].0] by {
        if j > 0 {
            if i >= 0 {
                let k = if j - 1 < i { j - 1 } else { j };
                assert(out[j] == cache[k]);
            } else {
                assert(out[j] == cache[j - 1]);
            }
        }
    }
}

/// The lookup on the cache comes to the same as the lookup with every page
/// at hand. Where it ends, it ends with what that lookup finds. Where it
/// stops for a page, nothing was found before that page, the page is one
/// whose range holds the key, and the lookup with every page at hand goes
/// on from there to the same end. The cache stays in agreement with the
/// store.
pub proof fn lemma_scan_agrees(
    levels: Seq<Seq<PageMetaModel>>,
    store: Map<u64, PageModel>,
    level: nat,
    offset: nat,
    cache: Seq<(u64, Page)>,
    id: Seq<char>,
    snapshot: u64,
)
    requires
        cache_agrees(cache, store),
    ensures
        cache_agrees(scan(levels, level, offset, cache, id, snapshot).cache, store),
        match scan(levels, level, offset, cache, id, snapshot).outcome {
            Outcome::NeedPage { level: l, offset: o } => l < levels.len() && o
                < levels[l as int].len() && range_holds(
                levels[l as int][levels[l as int].len() - 1 - o],
                id,
            ) && lookup_pages(levels, store, level, offset, id, snapshot) == lookup_pages(
                levels,
                store,
                l,
                o,
                id,
                snapshot,
            ),
            other => other == answer_outcome(
                lookup_pages(levels, store, level, offset, id, snapshot),
            ),
        },
    decreases levels.len() - level, (if level < levels.len() {
        levels[level as int].len() - offset
    } else {
        0
    }),
{
    if level >= levels.len() {
    } else if offset >= levels[level as int].len() {
        lemma_scan_agrees(levels, store, level + 1, 0, cache, id, snapshot);
    } else {
        let m = levels[level as int][levels[level as int].len() - 1 - offset];
        if !range_holds(m, id) {
            lemma_scan_agrees(levels, store, level, offset + 1, cache, id, snapshot);
        } else {
            lemma_position_of(cache, m.page_id);
            let at = position_of(cache, m.page_id);
            if at >= 0 {
                let seen = promoted(cache, at);
                assert forall|j: int| 0 <= j < seen.len() implies (#[trigger] seen[j]).1@
                    == store[seen[j].0] by {
                    if j == 0 {
                        assert(seen[j] == cache[at]);
                    } else {
                        let k = if j - 1 < at { j - 1 } else { j };
                        assert(seen[j] == cache[k]);
                    }
                }
                assert(cache[at].1@ == store[m.page_id]);
                lemma_scan_agrees(levels, store, level, offset + 1, seen, id, snapshot);
            }
        }
    }
}

/// Going on with the page that the lookup stopped for comes to the same as
/// the lookup with every page at hand.
pub proof fn lemma_resume_agrees(
    levels: Seq<Seq<PageMetaModel>>,
    store: Map<u64, PageModel>,
    level: nat,
    offset: nat,
    cache: Seq<(u64, Page)>,
    capacity: nat,
    page: Page,
    id: Seq<char>,
    snapshot: u64,
)
    requires
        cache_agrees(cache, store),
        level < levels.len(),
        offset < levels[level as int].len(),
        range_holds(levels[level as int][levels[level as int].len() - 1 - offset], id),
        page@ == store[levels[level as int][levels[level as int].len() - 1 - offset].page_id],
    ensures
        ({
            let m = levels[level as int][levels[level as int].len() - 1 - offset];
            let cached = put_model(cache, capacity, m.page_id, page);
            let whole = lookup_pages(levels, store, level, offset, id, snapshot);
            &&& cache_agrees(cached, store)
            &&& match page_answer(page@, id, snapshot) {
                Some(r) => whole == Some(r),
                None => {
                    let s = scan(levels, level, offset + 1, cached, id, snapshot);
                    &&& cache_agrees(s.cache, store)
                    &&& match s.outcome {
                        Outcome::NeedPage { level: l, offset: o } => whole == lookup_pages(
                            levels,
                            store,
                            l,
                            o,
                            id,
                            snapshot,
                        ),
                        other => other == answer_outcome(whole),
                    }
                },
            }
        }),
{
    let m = levels[level as int][levels[level as int].len() - 1 - offset];
    lemma_put_agrees(cache, capacity, store, m.page_id, page);
    lemma_scan_agrees(
        levels,
        store,
        level,
        offset + 1,
        put_model(cache, capacity, m.page_id, page),
        id,
        snapshot,
    );
}

} // verus!
