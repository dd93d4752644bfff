//! What holds of the pages that a compaction makes.
//!
//! The pages are cut from a stream whose ids go up strictly, so the ranges
//! of two of them have no id in common, and level one stays free of
//! overlaps when they are installed.

use vstd::prelude::*;
use crate::keys::{key_lt, lemma_key_lt_total};
use crate::lsm::compaction::compaction_sources;
use crate::lsm::level::{non_overlapping, ranges_overlap, PageMetaModel};
use crate::lsm::merge::{merged, Sources};
use crate::lsm::merge_laws::{lemma_merge_law, sources_sorted, strictly_sorted};
use crate::meta::{lemma_install_keeps_level_one_disjoint, pages_clear_of};
use crate::storage::flush::{chunks, joined, lemma_chunking, pages_for};
use crate::storage::page::builder::{page_checked, PageModel};
use crate::storage::record::RecordModel;
use crate::storage::versions::{lemma_versions_members, versions_of};

verus! {

/// Where a record of a chunk stands in the chunks put together.
pub proof fn lemma_joined_position(cs: Seq<Seq<RecordModel>>, a: int, x: int) -> (p: int)
    requires
        0 <= a < cs.len(),
        0 <= x < cs[a].len(),
    ensures
        0 <= p < joined(cs).len(),
        joined(cs)[p] == cs[a][x],
    decreases cs.len(),
{
    let front = cs.drop_last();
    if a == cs.len() - 1 {
        assert(cs.last() == cs[a]);
        joined(front).len() + x
    } else {
        assert(front[a] == cs[a]);
        lemma_joined_position(front, a, x)
    }
}

/// A record of an earlier chunk stands before a record of a later chunk.
pub proof fn lemma_joined_order(cs: Seq<Seq<RecordModel>>, a: int, x: int, b: int, y: int) -> (r: (
    int,
    int,
))
    requires
        0 <= a < b < cs.len(),
        0 <= x < cs[a].len(),
        0 <= y < cs[b].len(),
    ensures
        0 <= r.0 < r.1 < joined(cs).len(),
        joined(cs)[r.0] == cs[a][x],
        joined(cs)[r.1] == cs[b][y],
    decreases cs.len(),
{
    let front = cs.drop_last();
    if b == cs.len() - 1 {
        assert(cs.last() == cs[b]);
        assert(front[a] == cs[a]);
        let p = lemma_joined_position(front, a, x);
        (p, joined(front).len() + y)
    } else {
        assert(front[a] == cs[a]);
        assert(front[b] == cs[b]);
        lemma_joined_order(front, a, x, b, y)
    }
}

/// Every record of a page that was built of a chunk has the id of a record
/// of the chunk.
pub proof fn lemma_built_ids(page: PageModel, chunk: Seq<RecordModel>, j: int) -> (x: int)
    requires
        crate::storage::flush::built_from(page, chunk),
        0 <= j < page.records.len(),
    ensures
        0 <= x < chunk.len(),
        chunk[x].id == page.records[j].id,
{
    let id = page.records[j].id;
    lemma_versions_members(page.records, id);
    lemma_versions_members(chunk, id);
    let v = versions_of(page.records, id);
    assert(v.contains(page.records[j]));
    let i = choose|i: int| 0 <= i < v.len() && v[i] == page.records[j];
    assert(versions_of(chunk, id) == v);
    assert(chunk.contains(versions_of(chunk, id)[i]));
    let x = choose|x: int| 0 <= x < chunk.len() && chunk[x] == v[i];
    x
}

/// The pages cut from a stream whose ids go up strictly do not overlap.
pub proof fn lemma_cut_pages_disjoint(
    stream: Seq<RecordModel>,
    max_bytes: usize,
    max_records: usize,
    pages: Seq<PageModel>,
    metas: Seq<PageMetaModel>,
    first: u64,
)
    requires
        strictly_sorted(stream),
        max_records >= 1,
        pages_for(pages, metas, chunks(stream, max_bytes, max_records), first),
    ensures
        non_overlapping(metas),
{
    let cs = chunks(stream, max_bytes, max_records);
    lemma_chunking(stream, max_bytes, max_records);
    assert forall|a: int, b: int| 0 <= a < b < metas.len() implies !ranges_overlap(
        #[trigger] metas[a],
        #[trigger] metas[b],
    ) by {
        let pa = pages[a];
        let pb = pages[b];
        assert(crate::storage::flush::built_from(pa, cs[a]));
        assert(crate::storage::flush::built_from(pb, cs[b]));
        let x = lemma_built_ids(pa, cs[a], pa.records.len() - 1);
        let y = lemma_built_ids(pb, cs[b], 0);
        let (p, q) = lemma_joined_order(cs, a, x, b, y);
        assert(key_lt(stream[p].id, stream[q].id));
        assert(metas[a].max_id == pa.records.last().id);
        assert(metas[b].min_id == pb.records.first().id);
    }
}

/// The records of every page are in the order of their ids.
pub proof fn lemma_checked_pages_are_sorted(l0: Seq<PageModel>, l1: Seq<PageModel>)
    requires
        forall|i: int| 0 <= i < l0.len() ==> page_checked(#[trigger] l0[i]),
        forall|i: int| 0 <= i < l1.len() ==> page_checked(#[trigger] l1[i]),
    ensures
        sources_sorted(compaction_sources(l0, l1)),
{
    let srcs = compaction_sources(l0, l1);
    assert forall|i: int| 0 <= i < srcs.len() implies crate::storage::versions::sorted_by_id(
        (#[trigger] srcs[i]).0,
    ) by {
        if i < l0.len() {
            assert(srcs[i].0 == l0[i].records);
        } else {
            assert(srcs[i].0 == l1[i - l0.len()].records);
        }
    }
}

/// A compaction keeps of every key the version that wins: the pages that
/// it makes hold of each key the champion among all versions of the key in
/// the pages that went in, and nothing where the champion is a tombstone.
pub proof fn lemma_compaction_keeps_the_winners(
    l0: Seq<PageModel>,
    l1: Seq<PageModel>,
    target_page_size_bytes: usize,
    first_page_id: u64,
    pages: Seq<PageModel>,
    metas: Seq<PageMetaModel>,
    id: Seq<char>,
)
    requires
        forall|i: int| 0 <= i < l0.len() ==> page_checked(#[trigger] l0[i]),
        forall|i: int| 0 <= i < l1.len() ==> page_checked(#[trigger] l1[i]),
        pages_for(
            pages,
            metas,
            chunks(
                merged(compaction_sources(l0, l1)),
                target_page_size_bytes,
                crate::lsm::compaction::MAX_RECORDS_PER_COMPACTED_PAGE,
            ),
            first_page_id,
        ),
    ensures
        crate::storage::flush::versions_in_pages(pages, id) == crate::lsm::merge_laws::survivor(
            compaction_sources(l0, l1),
            id,
        ),
{
    lemma_checked_pages_are_sorted(l0, l1);
    lemma_merge_law(compaction_sources(l0, l1));
    crate::storage::flush::lemma_cut_keeps_versions(
        merged(compaction_sources(l0, l1)),
        target_page_size_bytes,
        crate::lsm::compaction::MAX_RECORDS_PER_COMPACTED_PAGE,
        pages,
        metas,
        first_page_id,
        id,
    );
}

/// After a compaction no two pages of level one overlap.
///
/// The pages that went into the compaction are pages as `read_page` gives
/// them; the pages that came out are those of `execute_l0_to_l1`; level one
/// was free of overlaps before. Then level one as `install_compaction`
/// leaves it is free of overlaps.
pub proof fn lemma_level_one_stays_disjoint(
    l0: Seq<PageModel>,
    l1: Seq<PageModel>,
    target_page_size_bytes: usize,
    first_page_id: u64,
    pages: Seq<PageModel>,
    metas: Seq<PageMetaModel>,
    level_one: Seq<PageMetaModel>,
)
    requires
        forall|i: int| 0 <= i < l0.len() ==> page_checked(#[trigger] l0[i]),
        forall|i: int| 0 <= i < l1.len() ==> page_checked(#[trigger] l1[i]),
        pages_for(
            pages,
            metas,
            chunks(
                merged(compaction_sources(l0, l1)),
                target_page_size_bytes,
                crate::lsm::compaction::MAX_RECORDS_PER_COMPACTED_PAGE,
            ),
            first_page_id,
        ),
        non_overlapping(level_one),
    ensures
        non_overlapping(metas),
        non_overlapping(pages_clear_of(level_one, metas) + metas),
{
    lemma_checked_pages_are_sorted(l0, l1);
    lemma_merge_law(compaction_sources(l0, l1));
    lemma_cut_pages_disjoint(
        merged(compaction_sources(l0, l1)),
        target_page_size_bytes,
        crate::lsm::compaction::MAX_RECORDS_PER_COMPACTED_PAGE,
        pages,
        metas,
        first_page_id,
    );
    lemma_install_keeps_level_one_disjoint(level_one, metas);
}

} // verus!
