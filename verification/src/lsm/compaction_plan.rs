//! Deciding when level zero is compacted into level one, and with which
//! pages.

use vstd::prelude::*;
use crate::keys::{key_before, key_lt};
use crate::lsm::level::{clone_metas, metas_view, PageMeta, PageMetaModel};
use crate::meta::{level_pages, TableMeta, TableMetaModel};

verus! {

/// Level zero is compacted when it holds this many pages.
pub const L0_PAGES_LIMIT: usize = 8;

/// Level zero is compacted when its pages hold this many bytes: 256 KiB.
pub const L0_SIZE_LIMIT_BYTES: u64 = 262144;

/// The size that a page of level one is to have: 256 KiB.
pub const L1_PAGE_BYTES: usize = 262144;

/// What a compaction of level zero into level one takes and makes.
#[derive(Debug)]
pub struct CompactionPlan {
    pub source_level: usize,
    pub target_level: usize,
    pub input_l0_pages: Vec<PageMeta>,
    pub input_l1_pages: Vec<PageMeta>,
    pub min_key: String,
    pub max_key: String,
    pub target_page_size_bytes: usize,
    pub target_page_id_start: u64,
}

/// The sum of the sizes of the pages.
pub open spec fn total_size(pages: Seq<PageMetaModel>) -> int
    decreases pages.len(),
{
    if pages.len() == 0 {
        0
    } else {
        total_size(pages.drop_last()) + pages.last().size_bytes
    }
}

/// Whether level zero is due: it holds eight pages or more, or 256 KiB or
/// more.
pub open spec fn compaction_due(l0: Seq<PageMetaModel>) -> bool {
    l0.len() >= L0_PAGES_LIMIT || total_size(l0) >= L0_SIZE_LIMIT_BYTES
}

/// The smallest of the smallest ids of the pages.
pub open spec fn smallest_min_id(pages: Seq<PageMetaModel>) -> Seq<char>
    decreases pages.len(),
{
    if pages.len() <= 1 {
        if pages.len() == 1 {
            pages[0].min_id
        } else {
            Seq::empty()
        }
    } else {
        let m = smallest_min_id(pages.drop_last());
        if key_lt(pages.last().min_id, m) {
            pages.last().min_id
        } else {
            m
        }
    }
}

/// The largest of the largest ids of the pages.
pub open spec fn largest_max_id(pages: Seq<PageMetaModel>) -> Seq<char>
    decreases pages.len(),
{
    if pages.len() <= 1 {
        if pages.len() == 1 {
            pages[0].max_id
        } else {
            Seq::empty()
        }
    } else {
        let m = largest_max_id(pages.drop_last());
        if key_lt(m, pages.last().max_id) {
            pages.last().max_id
        } else {
            m
        }
    }
}

/// Whether the range of the page has an id in common with the range from
/// `min_key` to `max_key`.
pub open spec fn touches(p: PageMetaModel, min_key: Seq<char>, max_key: Seq<char>) -> bool {
    !(key_lt(p.max_id, min_key) || key_lt(max_key, p.min_id))
}

/// The pages whose range touches the range from `min_key` to `max_key`, in
/// their order.
pub open spec fn pages_touching(
    pages: Seq<PageMetaModel>,
    min_key: Seq<char>,
    max_key: Seq<char>,
) -> Seq<PageMetaModel>
    decreases pages.len(),
{
    if pages.len() == 0 {
        Seq::empty()
    } else {
        let front = pages_touching(pages.drop_last(), min_key, max_key);
        if touches(pages.last(), min_key, max_key) {
            front.push(pages.last())
        } else {
            front
        }
    }
}

/// The plan is the one for the manifest: all of level zero, the range of
/// its ids, the pages of level one that touch the range, the size of a page
/// of level one, and the manifest's next page id.
pub open spec fn plan_for(plan: CompactionPlan, meta: TableMetaModel) -> bool {
    let l0 = level_pages(meta.level, 0);
    &&& plan.source_level == 0
    &&& plan.target_level == 1
    &&& metas_view(plan.input_l0_pages@) == l0
    &&& plan.min_key@ == smallest_min_id(l0)
    &&& plan.max_key@ == largest_max_id(l0)
    &&& metas_view(plan.input_l1_pages@) == pages_touching(
        level_pages(meta.level, 1),
        smallest_min_id(l0),
        largest_max_id(l0),
    )
    &&& plan.target_page_size_bytes == L1_PAGE_BYTES
    &&& plan.target_page_id_start == meta.current_page_id
}

/// Whether the pages are due for compaction.
pub fn is_due(l0: &Vec<PageMeta>) -> (r: bool)
    ensures
        r == compaction_due(metas_view(l0@)),
{
    if l0.len() >= L0_PAGES_LIMIT {
        return true;
    }
    let ghost all = metas_view(l0@);
    let mut total: u64 = 0;
    let mut i: usize = 0;
    proof {
        assert(all.take(0) =~= Seq::<PageMetaModel>::empty());
    }
    while i < l0.len()
        invariant
            0 <= i <= l0@.len(),
            all == metas_view(l0@),
            total == total_size(all.take(i as int)),
            total < L0_SIZE_LIMIT_BYTES,
        decreases l0@.len() - i,
    {
        proof {
            assert(all.take(i + 1).drop_last() =~= all.take(i as int));
            assert(all.take(i + 1).last() == l0@[i as int]@);
            lemma_total_size_grows(all.take(i + 1), all);
        }
        let size = l0[i].size_bytes;
        if size >= L0_SIZE_LIMIT_BYTES - total {
            return true;
        }
        total = total + size;
        i += 1;
    }
    proof {
        assert(all.take(i as int) =~= all);
    }
    false
}

/// The pages at the front of a list hold no more bytes than the list.
pub proof fn lemma_total_size_grows(front: Seq<PageMetaModel>, all: Seq<PageMetaModel>)
    requires
        front.len() <= all.len(),
        front == all.take(front.len() as int),
    ensures
        total_size(front) <= total_size(all),
        total_size(front) >= 0,
    decreases all.len(),
{
    if front.len() == all.len() {
        assert(front =~= all);
        lemma_total_size_nonneg(all);
    } else {
        assert(all.drop_last().take(front.len() as int) =~= front);
        lemma_total_size_grows(front, all.drop_last());
    }
}

/// The sizes of pages add up to no less than zero.
pub proof fn lemma_total_size_nonneg(all: Seq<PageMetaModel>)
    ensures
        total_size(all) >= 0,
    decreases all.len(),
{
    if all.len() > 0 {
        lemma_total_size_nonneg(all.drop_last());
    }
}

/// Plans the compaction of level zero into level one: a plan where level
/// zero is due, nothing where it is not.
pub fn plan_l0_to_l1(meta: &TableMeta) -> (r: Option<CompactionPlan>)
    ensures
        r is Some <==> compaction_due(level_pages(meta@.level, 0)),
        r matches Some(plan) ==> plan_for(plan, meta@),
{
    if meta.level.len() == 0 {
        proof {
            assert(total_size(Seq::<PageMetaModel>::empty()) == 0);
        }
        return None;
    }
    let l0 = &meta.level[0];
    let ghost pages = metas_view(l0@);
    proof {
        assert(crate::meta::levels_view(meta.level@)[0] == pages);
    }
    if !is_due(l0) {
        return None;
    }
    // due: there is at least one page
    proof {
        if pages.len() == 0 {
            assert(total_size(pages) == 0);
        }
    }
    let mut lo: usize = 0;
    let mut hi: usize = 0;
    let mut i: usize = 1;
    proof {
        assert(pages.take(1).len() == 1);
        assert(pages.take(1)[0] == pages[0]);
    }
    while i < l0.len()
        invariant
            1 <= i <= l0@.len(),
            pages == metas_view(l0@),
            lo < i,
            hi < i,
            pages[lo as int].min_id == smallest_min_id(pages.take(i as int)),
            pages[hi as int].max_id == largest_max_id(pages.take(i as int)),
        decreases l0@.len() - i,
    {
        proof {
            assert(pages.take(i + 1).drop_last() =~= pages.take(i as int));
            assert(pages.take(i + 1).last() == pages[i as int]);
            assert(pages[i as int] == l0@[i as int]@);
            assert(pages[lo as int] == l0@[lo as int]@);
            assert(pages[hi as int] == l0@[hi as int]@);
        }
        if key_before(l0[i].min_id.as_str(), l0[lo].min_id.as_str()) {
            lo = i;
        }
        if key_before(l0[hi].max_id.as_str(), l0[i].max_id.as_str()) {
            hi = i;
        }
        i += 1;
    }
    proof {
        assert(pages.take(i as int) =~= pages);
        assert(pages[lo as int] == l0@[lo as int]@);
        assert(pages[hi as int] == l0@[hi as int]@);
    }
    let min_key = l0[lo].min_id.clone();
    let max_key = l0[hi].max_id.clone();
    let mut input_l1_pages: Vec<PageMeta> = Vec::new();
    proof {
        assert(metas_view(input_l1_pages@) =~= Seq::<PageMetaModel>::empty());
    }
    if meta.level.len() > 1 {
        let l1 = &meta.level[1];
        let ghost ones = metas_view(l1@);
        proof {
            assert(crate::meta::levels_view(meta.level@)[1] == ones);
            assert(ones.take(0) =~= Seq::<PageMetaModel>::empty());
        }
        let mut j: usize = 0;
        while j < l1.len()
            invariant
                0 <= j <= l1@.len(),
                ones == metas_view(l1@),
                metas_view(input_l1_pages@) == pages_touching(
                    ones.take(j as int),
                    min_key@,
                    max_key@,
                ),
            decreases l1@.len() - j,
        {
            proof {
                assert(ones.take(j + 1).drop_last() =~= ones.take(j as int));
                assert(ones.take(j + 1).last() == l1@[j as int]@);
            }
            let p = &l1[j];
            let overlaps = !(key_before(p.max_id.as_str(), min_key.as_str()) || key_before(
                max_key.as_str(),
                p.min_id.as_str(),
            ));
            if overlaps {
                let ghost prev = metas_view(input_l1_pages@);
                input_l1_pages.push(p.clone());
                proof {
                    assert(metas_view(input_l1_pages@) =~= prev.push(p@));
                }
            }
            j += 1;
        }
        proof {
            assert(ones.take(j as int) =~= ones);
        }
    }
    Some(
        CompactionPlan {
            source_level: 0,
            target_level: 1,
            input_l0_pages: clone_metas(l0),
            input_l1_pages,
            min_key,
            max_key,
            target_page_size_bytes: L1_PAGE_BYTES,
            target_page_id_start: meta.current_page_id,
        },
    )
}

} // verus!
