//! Carrying out a compaction of level zero into level one.

use vstd::prelude::*;
use crate::lsm::compaction_plan::CompactionPlan;
use crate::lsm::level::metas_view;
use crate::lsm::merge::{
    lemma_merged_within_len, merged, sources_view, total_len, MergeIterator, PageIterator,
    Sources,
};
use crate::storage::flush::{build_pages, chunks, pages_for, pages_view, BuiltPages};
use crate::storage::page::builder::{clone_records, Page, PageModel};
use crate::storage::record::RecordModel;

verus! {

/// The pages as sources of one level.
pub open spec fn sources_of(pages: Seq<PageModel>, level: u32) -> Sources {
    pages.map_values(|p: PageModel| (p.records, level))
}

/// The sources of a compaction: the pages of level zero in their order,
/// then the pages of level one.
pub open spec fn compaction_sources(l0: Seq<PageModel>, l1: Seq<PageModel>) -> Sources {
    sources_of(l0, 0) + sources_of(l1, 1)
}

/// The largest number of records of a page that a compaction makes: what
/// the header can count.
pub const MAX_RECORDS_PER_COMPACTED_PAGE: usize = 0xffff_ffff;

/// Adds the pages to the sources of a merge.
fn add_sources(sources: &mut Vec<(PageIterator, u32)>, pages: &Vec<Page>, level: u32)
    ensures
        sources_view(final(sources)@) == sources_view(old(sources)@) + sources_of(
            pages_view(pages@),
            level,
        ),
{
    let ghost start = sources_view(sources@);
    let ghost all = pages_view(pages@);
    let mut i: usize = 0;
    proof {
        assert(sources_of(all.take(0), level) =~= Seq::<(Seq<RecordModel>, u32)>::empty());
        assert(start + sources_of(all.take(0), level) =~= start);
    }
    while i < pages.len()
        invariant
            0 <= i <= pages@.len(),
            all == pages_view(pages@),
            sources_view(sources@) == start + sources_of(all.take(i as int), level),
        decreases pages@.len() - i,
    {
        let ghost prev = sources_view(sources@);
        let it = PageIterator::new(clone_records(&pages[i].records));
        sources.push((it, level));
        proof {
            assert(all[i as int] == pages@[i as int]@);
            assert(sources_view(sources@) =~= prev.push((all[i as int].records, level)));
            assert(sources_of(all.take(i + 1), level) =~= sources_of(
                all.take(i as int),
                level,
            ).push((all[i as int].records, level)));
            assert(start + sources_of(all.take(i + 1), level) =~= (start + sources_of(
                all.take(i as int),
                level,
            )).push((all[i as int].records, level)));
        }
        i += 1;
    }
    proof {
        assert(all.take(i as int) =~= all);
    }
}

/// Carries out the plan on the pages it names: `l0` are the pages of level
/// zero and `l1` those of level one that the plan takes in, as they were
/// read from their files. The records of all of them are merged, and the
/// stream is cut into pages of the plan's size, which get the ids from the
/// plan's first id on. The result holds the pages to write, their entries
/// for the manifest, and the id of the page that comes next.
pub fn execute_l0_to_l1(plan: &CompactionPlan, l0: &Vec<Page>, l1: &Vec<Page>) -> (r: BuiltPages)
    requires
        plan.target_page_id_start + total_len(
            compaction_sources(pages_view(l0@), pages_view(l1@)),
        ) <= u64::MAX,
    ensures
        pages_for(
            pages_view(r.pages@),
            metas_view(r.metas@),
            chunks(
                merged(compaction_sources(pages_view(l0@), pages_view(l1@))),
                plan.target_page_size_bytes,
                MAX_RECORDS_PER_COMPACTED_PAGE,
            ),
            plan.target_page_id_start,
        ),
        r.next_page_id == plan.target_page_id_start + chunks(
            merged(compaction_sources(pages_view(l0@), pages_view(l1@))),
            plan.target_page_size_bytes,
            MAX_RECORDS_PER_COMPACTED_PAGE,
        ).len(),
{
    let mut sources: Vec<(PageIterator, u32)> = Vec::new();
    proof {
        assert(sources_view(sources@) =~= Seq::<(Seq<RecordModel>, u32)>::empty());
    }
    add_sources(&mut sources, l0, 0);
    add_sources(&mut sources, l1, 1);
    proof {
        assert(sources_view(sources@) =~= compaction_sources(pages_view(l0@), pages_view(l1@)));
    }
    let mut merge = MergeIterator::new(sources);
    let ghost srcs = merge@;
    let stream = merge.merge_all();
    proof {
        lemma_merged_within_len(srcs, total_len(srcs));
    }
    build_pages(
        &stream,
        plan.target_page_size_bytes,
        MAX_RECORDS_PER_COMPACTED_PAGE,
        plan.target_page_id_start,
    )
}

} // verus!
