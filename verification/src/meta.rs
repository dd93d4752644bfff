//! The manifest: which pages make up each level, up to which seqno the log
//! has been absorbed into pages, and the id of the next page.

use vstd::prelude::*;
use crate::error::Error;
use crate::lsm::level::{
    clone_metas, metas_view, non_overlapping, ranges_overlap, PageMeta, PageMetaModel,
};
use crate::storage::wal::{rewrite_bytes, Wal};

verus! {

/// The version of the manifest's format.
pub const META_VERSION: u32 = 1;

/// The manifest as a mathematical value.
pub struct TableMetaModel {
    pub version: u32,
    pub level: Seq<Seq<PageMetaModel>>,
    pub checkpoint_seqno: u64,
    pub current_page_id: u64,
}

/// The manifest. `level[0]` may hold pages that overlap; the pages of a
/// level above it do not.
#[derive(Debug, PartialEq, Eq)]
pub struct TableMeta {
    pub version: u32,
    pub level: Vec<Vec<PageMeta>>,
    pub checkpoint_seqno: u64,
    pub current_page_id: u64,
}

/// The levels as mathematical values.
pub open spec fn levels_view(levels: Seq<Vec<PageMeta>>) -> Seq<Seq<PageMetaModel>> {
    levels.map_values(|l: Vec<PageMeta>| metas_view(l@))
}

impl View for TableMeta {
    type V = TableMetaModel;

    open spec fn view(&self) -> TableMetaModel {
        TableMetaModel {
            version: self.version,
            level: levels_view(self.level@),
            checkpoint_seqno: self.checkpoint_seqno,
            current_page_id: self.current_page_id,
        }
    }
}

/// The pages of level `i`, none where the manifest has no such level.
pub open spec fn level_pages(levels: Seq<Seq<PageMetaModel>>, i: int) -> Seq<PageMetaModel> {
    if 0 <= i < levels.len() {
        levels[i]
    } else {
        Seq::empty()
    }
}

/// The levels from the third on.
pub open spec fn upper_levels(levels: Seq<Seq<PageMetaModel>>) -> Seq<Seq<PageMetaModel>> {
    if levels.len() > 2 {
        levels.skip(2)
    } else {
        Seq::empty()
    }
}

/// Whether the page overlaps one of the others.
pub open spec fn overlaps_any(p: PageMetaModel, others: Seq<PageMetaModel>) -> bool {
    exists|j: int| 0 <= j < others.len() && ranges_overlap(p, #[trigger] others[j])
}

/// The pages that overlap none of the others, in their order.
pub open spec fn pages_clear_of(pages: Seq<PageMetaModel>, others: Seq<PageMetaModel>) -> Seq<
    PageMetaModel,
>
    decreases pages.len(),
{
    if pages.len() == 0 {
        Seq::empty()
    } else {
        let front = pages_clear_of(pages.drop_last(), others);
        if overlaps_any(pages.last(), others) {
            front
        } else {
            front.push(pages.last())
        }
    }
}

/// The smaller of a minimum so far and one more number.
pub open spec fn opt_min(acc: Option<u64>, x: u64) -> Option<u64> {
    match acc {
        None => Some(x),
        Some(m) => Some(if x < m { x } else { m }),
    }
}

/// The smallest `max_seqno` among `acc` and the pages.
pub open spec fn min_seqno_from(acc: Option<u64>, pages: Seq<PageMetaModel>) -> Option<u64>
    decreases pages.len(),
{
    if pages.len() == 0 {
        acc
    } else {
        opt_min(min_seqno_from(acc, pages.drop_last()), pages.last().max_seqno)
    }
}

/// The smallest `max_seqno` among the pages of all levels, nothing where
/// there is no page.
pub open spec fn min_seqno_levels(levels: Seq<Seq<PageMetaModel>>) -> Option<u64>
    decreases levels.len(),
{
    if levels.len() == 0 {
        None
    } else {
        min_seqno_from(min_seqno_levels(levels.drop_last()), levels.last())
    }
}

/// The seqno up to which the log may be cut: the smallest `max_seqno` of
/// any page, zero where there is no page.
pub open spec fn checkpoint_of(levels: Seq<Seq<PageMetaModel>>) -> u64 {
    match min_seqno_levels(levels) {
        Some(m) => m,
        None => 0,
    }
}

/// What the smallest `max_seqno` is: it is below that of no page, and it is
/// `acc` or that of some page.
pub proof fn lemma_min_seqno_from(acc: Option<u64>, pages: Seq<PageMetaModel>)
    ensures
        acc is Some ==> min_seqno_from(acc, pages) is Some && min_seqno_from(acc, pages)->0
            <= acc->0,
        pages.len() > 0 ==> min_seqno_from(acc, pages) is Some,
        pages.len() == 0 ==> min_seqno_from(acc, pages) == acc,
        forall|i: int|
            0 <= i < pages.len() ==> min_seqno_from(acc, pages)->0 <= (#[trigger] pages[i]).max_seqno,
        min_seqno_from(acc, pages) is Some ==> min_seqno_from(acc, pages) == acc || exists|i: int|
            0 <= i < pages.len() && (#[trigger] pages[i]).max_seqno == min_seqno_from(acc, pages)->0,
    decreases pages.len(),
{
    if pages.len() > 0 {
        let front = pages.drop_last();
        lemma_min_seqno_from(acc, front);
        let m = min_seqno_from(acc, pages);
        assert forall|i: int| 0 <= i < pages.len() implies m->0 <= (#[trigger] pages[i]).max_seqno by {
            if i < pages.len() - 1 {
                assert(front[i] == pages[i]);
            }
        }
        if m == acc {
        } else if m->0 == pages.last().max_seqno {
            assert(pages[pages.len() - 1].max_seqno == m->0);
        } else {
            let k = choose|k: int| 0 <= k < front.len() && (#[trigger] front[k]).max_seqno
                == min_seqno_from(acc, front)->0;
            assert(pages[k].max_seqno == m->0);
        }
    }
}

/// The checkpoint that is computed is the smallest `max_seqno` of all
/// pages: it is above that of no page and is that of some page; it is zero
/// where there is no page.
pub proof fn lemma_checkpoint_of(levels: Seq<Seq<PageMetaModel>>)
    ensures
        forall|l: int, i: int|
            0 <= l < levels.len() && 0 <= i < levels[l].len() ==> checkpoint_of(levels) <= (
            #[trigger] levels[l][i]).max_seqno,
        min_seqno_levels(levels) is Some ==> exists|l: int, i: int|
            0 <= l < levels.len() && 0 <= i < levels[l].len() && (#[trigger] levels[l][i]).max_seqno
                == checkpoint_of(levels),
        min_seqno_levels(levels) is None <==> forall|l: int|
            0 <= l < levels.len() ==> (#[trigger] levels[l]).len() == 0,
    decreases levels.len(),
{
    if levels.len() > 0 {
        let front = levels.drop_last();
        let last = levels.last();
        lemma_checkpoint_of(front);
        lemma_min_seqno_from(min_seqno_levels(front), last);
        let m = min_seqno_levels(levels);
        assert forall|l: int, i: int|
            0 <= l < levels.len() && 0 <= i < levels[l].len() implies checkpoint_of(levels) <= (
        #[trigger] levels[l][i]).max_seqno by {
            if l < levels.len() - 1 {
                assert(front[l] == levels[l]);
                assert(checkpoint_of(front) <= front[l][i].max_seqno);
            } else {
                assert(levels[l] == last);
            }
        }
        if m is Some {
            if m == min_seqno_levels(front) {
                let (l, i) = choose|l: int, i: int|
                    0 <= l < front.len() && 0 <= i < front[l].len() && (
                    #[trigger] front[l][i]).max_seqno == checkpoint_of(front);
                assert(front[l] == levels[l]);
                assert(levels[l][i].max_seqno == checkpoint_of(levels));
            } else {
                let i = choose|i: int|
                    0 <= i < last.len() && (#[trigger] last[i]).max_seqno == m->0;
                assert(levels[levels.len() - 1][i].max_seqno == checkpoint_of(levels));
            }
        }
        if m is None {
            assert forall|l: int| 0 <= l < levels.len() implies (#[trigger] levels[l]).len()
                == 0 by {
                if l < levels.len() - 1 {
                    assert(front[l] == levels[l]);
                }
            }
        } else {
            if min_seqno_levels(front) is Some {
                let l = choose|l: int| 0 <= l < front.len() && (#[trigger] front[l]).len() != 0;
                assert(front[l] == levels[l]);
            } else {
                assert(levels[levels.len() - 1].len() != 0);
            }
        }
    }
}

/// The pages that stay are pages that were there, in their order, and none
/// of them overlaps one of the others.
pub proof fn lemma_pages_clear_of(pages: Seq<PageMetaModel>, others: Seq<PageMetaModel>)
    ensures
        forall|i: int|
            0 <= i < pages_clear_of(pages, others).len() ==> !overlaps_any(
                #[trigger] pages_clear_of(pages, others)[i],
                others,
            ),
        non_overlapping(pages) ==> non_overlapping(pages_clear_of(pages, others)),
        forall|i: int|
            0 <= i < pages_clear_of(pages, others).len() ==> pages.contains(
                #[trigger] pages_clear_of(pages, others)[i],
            ),
        forall|j: int|
            0 <= j < pages.len() && !overlaps_any(#[trigger] pages[j], others)
                ==> pages_clear_of(pages, others).contains(pages[j]),
    decreases pages.len(),
{
    if pages.len() > 0 {
        let front = pages.drop_last();
        let last = pages.last();
        lemma_pages_clear_of(front, others);
        let kf = pages_clear_of(front, others);
        let k = pages_clear_of(pages, others);
        assert forall|i: int| 0 <= i < k.len() implies !overlaps_any(#[trigger] k[i], others)
            && pages.contains(k[i]) by {
            if i < kf.len() {
                assert(k[i] == kf[i]);
                let j = choose|j: int| 0 <= j < front.len() && front[j] == kf[i];
                assert(pages[j] == k[i]);
            } else {
                assert(pages[pages.len() - 1] == k[i]);
            }
        }
        assert forall|j: int|
            0 <= j < pages.len() && !overlaps_any(#[trigger] pages[j], others) implies k.contains(
            pages[j],
        ) by {
            if j < pages.len() - 1 {
                assert(front[j] == pages[j]);
                let i = choose|i: int| 0 <= i < kf.len() && kf[i] == front[j];
                assert(k[i] == pages[j]);
            } else {
                assert(k[k.len() - 1] == pages[j]);
            }
        }
        if non_overlapping(pages) {
            assert forall|a: int, b: int| 0 <= a < b < front.len() implies !ranges_overlap(
                #[trigger] front[a],
                #[trigger] front[b],
            ) by {
                assert(front[a] == pages[a] && front[b] == pages[b]);
            }
            assert forall|a: int, b: int| 0 <= a < b < k.len() implies !ranges_overlap(
                #[trigger] k[a],
                #[trigger] k[b],
            ) by {
                if b < kf.len() {
                    assert(k[a] == kf[a] && k[b] == kf[b]);
                } else {
                    assert(k[a] == kf[a]);
                    let j = choose|j: int| 0 <= j < front.len() && front[j] == kf[a];
                    assert(pages[j] == k[a]);
                    assert(pages[pages.len() - 1] == k[b]);
                }
            }
        }
    }
}

/// After a compaction is installed no two pages of level one overlap, where
/// none did before and no two of the pages that the compaction made do.
pub proof fn lemma_install_keeps_level_one_disjoint(
    level_one: Seq<PageMetaModel>,
    outputs: Seq<PageMetaModel>,
)
    requires
        non_overlapping(level_one),
        non_overlapping(outputs),
    ensures
        non_overlapping(pages_clear_of(level_one, outputs) + outputs),
{
    lemma_pages_clear_of(level_one, outputs);
    let kept = pages_clear_of(level_one, outputs);
    let all = kept + outputs;
    assert forall|a: int, b: int| 0 <= a < b < all.len() implies !ranges_overlap(
        #[trigger] all[a],
        #[trigger] all[b],
    ) by {
        if b < kept.len() {
            assert(all[a] == kept[a] && all[b] == kept[b]);
        } else if a < kept.len() {
            assert(all[a] == kept[a]);
            assert(all[b] == outputs[b - kept.len()]);
            assert(!overlaps_any(kept[a], outputs));
        } else {
            assert(all[a] == outputs[a - kept.len()]);
            assert(all[b] == outputs[b - kept.len()]);
        }
    }
}

impl Clone for TableMeta {
    fn clone(&self) -> (r: Self)
        ensures
            r@ == self@,
    {
        let mut level: Vec<Vec<PageMeta>> = Vec::new();
        let mut i: usize = 0;
        while i < self.level.len()
            invariant
                0 <= i <= self.level@.len(),
                level@.len() == i,
                forall|j: int| 0 <= j < i ==> metas_view((#[trigger] level@[j])@) == metas_view(self.level@[j]@),
            decreases self.level@.len() - i,
        {
            level.push(clone_metas(&self.level[i]));
            i += 1;
        }
        proof {
            assert(levels_view(level@) =~= levels_view(self.level@));
        }
        TableMeta {
            version: self.version,
            level,
            checkpoint_seqno: self.checkpoint_seqno,
            current_page_id: self.current_page_id,
        }
    }
}

impl Default for TableMeta {
    /// The manifest of an empty store.
    fn default() -> (m: Self)
        ensures
            m@ == (TableMetaModel {
                version: META_VERSION,
                level: seq![Seq::<PageMetaModel>::empty(), Seq::<PageMetaModel>::empty()],
                checkpoint_seqno: 0,
                current_page_id: 0,
            }),
    {
        TableMeta::new()
    }
}

impl TableMeta {
    /// The manifest of an empty store: two empty levels, nothing absorbed,
    /// and zero as the id of the next page.
    pub fn new() -> (m: Self)
        ensures
            m@ == (TableMetaModel {
                version: META_VERSION,
                level: seq![Seq::<PageMetaModel>::empty(), Seq::<PageMetaModel>::empty()],
                checkpoint_seqno: 0,
                current_page_id: 0,
            }),
    {
        let mut level: Vec<Vec<PageMeta>> = Vec::new();
        level.push(Vec::new());
        level.push(Vec::new());
        proof {
            assert(metas_view(Seq::<PageMeta>::empty()) =~= Seq::<PageMetaModel>::empty());
            assert(levels_view(level@) =~= seq![
                Seq::<PageMetaModel>::empty(),
                Seq::<PageMetaModel>::empty(),
            ]);
        }
        TableMeta { version: META_VERSION, level, checkpoint_seqno: 0, current_page_id: 0 }
    }

    /// Adds pages at the end of level zero. A manifest without levels gets
    /// level zero.
    pub fn add_pages(&mut self, new_pages: Vec<PageMeta>)
        ensures
            final(self)@ == (TableMetaModel {
                level: if old(self)@.level.len() == 0 {
                    seq![metas_view(new_pages@)]
                } else {
                    old(self)@.level.update(0, old(self)@.level[0] + metas_view(new_pages@))
                },
                ..old(self)@
            }),
    {
        let ghost before = levels_view(self.level@);
        let mut added = new_pages;
        if self.level.len() == 0 {
            self.level.push(added);
            proof {
                assert(levels_view(self.level@) =~= seq![metas_view(new_pages@)]);
            }
        } else {
            let mut first = self.level.remove(0);
            let ghost was = metas_view(first@);
            first.append(&mut added);
            proof {
                assert(metas_view(first@) =~= was + metas_view(new_pages@));
            }
            self.level.insert(0, first);
            proof {
                assert(levels_view(self.level@) =~= before.update(
                    0,
                    before[0] + metas_view(new_pages@),
                ));
            }
        }
    }

    /// Installs the result of a compaction of level zero into level one:
    /// level zero becomes empty; level one loses every page that overlaps
    /// one of the new pages and gets the new pages at its end; the id of the
    /// next page becomes `next_page_id`. The other levels stay.
    pub fn install_compaction(&mut self, outputs: Vec<PageMeta>, next_page_id: u64)
        ensures
            final(self)@ == (TableMetaModel {
                level: seq![
                    Seq::<PageMetaModel>::empty(),
                    pages_clear_of(level_pages(old(self)@.level, 1), metas_view(outputs@))
                        + metas_view(outputs@),
                ] + upper_levels(old(self)@.level),
                current_page_id: next_page_id,
                ..old(self)@
            }),
    {
        let ghost before = levels_view(self.level@);
        let ghost outs = metas_view(outputs@);
        let mut kept: Vec<PageMeta> = Vec::new();
        proof {
            assert(metas_view(kept@) =~= Seq::<PageMetaModel>::empty());
        }
        if self.level.len() > 1 {
            let ghost l1 = metas_view(self.level@[1]@);
            let mut i: usize = 0;
            proof {
                assert(l1.take(0) =~= Seq::<PageMetaModel>::empty());
            }
            while i < self.level[1].len()
                invariant
                    self.level@.len() > 1,
                    0 <= i <= self.level@[1]@.len(),
                    l1 == metas_view(self.level@[1]@),
                    outs == metas_view(outputs@),
                    metas_view(kept@) == pages_clear_of(l1.take(i as int), outs),
                decreases self.level@[1]@.len() - i,
            {
                proof {
                    assert(l1.take(i + 1).drop_last() =~= l1.take(i as int));
                    assert(l1.take(i + 1).last() == l1[i as int]);
                }
                let page = &self.level[1][i];
                if !overlaps_one_of(page, &outputs) {
                    let ghost prev = metas_view(kept@);
                    kept.push(page.clone());
                    proof {
                        assert(metas_view(kept@) =~= prev.push(l1[i as int]));
                    }
                }
                i += 1;
            }
            proof {
                assert(l1.take(i as int) =~= l1);
            }
        }
        let mut outs_moved = outputs;
        let ghost kept_view = metas_view(kept@);
        kept.append(&mut outs_moved);
        proof {
            assert(metas_view(kept@) =~= kept_view + outs);
        }
        let mut level: Vec<Vec<PageMeta>> = Vec::new();
        level.push(Vec::new());
        level.push(kept);
        let ghost first_two = levels_view(level@);
        proof {
            assert(metas_view(Seq::<PageMeta>::empty()) =~= Seq::<PageMetaModel>::empty());
            assert(first_two =~= seq![
                Seq::<PageMetaModel>::empty(),
                pages_clear_of(level_pages(before, 1), outs) + outs,
            ]);
        }
        let n = self.level.len();
        let mut j: usize = 2;
        proof {
            assert(first_two + Seq::<Seq<PageMetaModel>>::empty() =~= first_two);
            if n >= 2 {
                assert(before.subrange(2, 2) =~= Seq::<Seq<PageMetaModel>>::empty());
            }
        }
        while j < n
            invariant
                2 <= j,
                n == self.level@.len(),
                n >= 2 ==> j <= n,
                before == levels_view(self.level@),
                levels_view(level@) == first_two + (if n >= 2 {
                    before.subrange(2, j as int)
                } else {
                    Seq::<Seq<PageMetaModel>>::empty()
                }),
            decreases n - j,
        {
            let ghost prev = levels_view(level@);
            level.push(clone_metas(&self.level[j]));
            proof {
                assert(levels_view(level@) =~= prev.push(before[j as int]));
                assert(first_two + before.subrange(2, j + 1) =~= (first_two + before.subrange(
                    2,
                    j as int,
                )).push(before[j as int]));
            }
            j += 1;
        }
        proof {
            if n > 2 {
                assert(before.subrange(2, j as int) =~= before.skip(2));
            }
        }
        self.level = level;
        self.current_page_id = next_page_id;
    }
}

/// Whether the page overlaps one of the others.
pub fn overlaps_one_of(page: &PageMeta, others: &Vec<PageMeta>) -> (r: bool)
    ensures
        r == overlaps_any(page@, metas_view(others@)),
{
    let mut j: usize = 0;
    while j < others.len()
        invariant
            0 <= j <= others@.len(),
            forall|k: int| 0 <= k < j ==> !ranges_overlap(page@, #[trigger] metas_view(others@)[k]),
        decreases others@.len() - j,
    {
        proof {
            assert(metas_view(others@)[j as int] == others@[j as int]@);
        }
        if page.overlaps(&others[j]) {
            return true;
        }
        j += 1;
    }
    false
}

/// The seqno up to which every record is in some page: the smallest
/// `max_seqno` among the pages of all levels, zero where there is no page.
pub fn compute_checkpoint_seqno(meta: &TableMeta) -> (c: u64)
    ensures
        c == checkpoint_of(meta@.level),
{
    let ghost levels = levels_view(meta.level@);
    let mut best: Option<u64> = None;
    let mut l: usize = 0;
    proof {
        assert(levels.take(0) =~= Seq::<Seq<PageMetaModel>>::empty());
    }
    while l < meta.level.len()
        invariant
            0 <= l <= meta.level@.len(),
            levels == levels_view(meta.level@),
            best == min_seqno_levels(levels.take(l as int)),
        decreases meta.level@.len() - l,
    {
        let pages = &meta.level[l];
        let ghost these = metas_view(pages@);
        let ghost start = best;
        let mut i: usize = 0;
        proof {
            assert(these.take(0) =~= Seq::<PageMetaModel>::empty());
        }
        while i < pages.len()
            invariant
                0 <= i <= pages@.len(),
                these == metas_view(pages@),
                best == min_seqno_from(start, these.take(i as int)),
            decreases pages@.len() - i,
        {
            proof {
                assert(these.take(i + 1).drop_last() =~= these.take(i as int));
                assert(these.take(i + 1).last() == pages@[i as int]@);
            }
            let s = pages[i].max_seqno;
            best = match best {
                None => Some(s),
                Some(m) => Some(if s < m { s } else { m }),
            };
            i += 1;
        }
        proof {
            assert(these.take(i as int) =~= these);
            assert(levels.take(l + 1).drop_last() =~= levels.take(l as int));
            assert(levels.take(l + 1).last() == these);
        }
        l += 1;
    }
    proof {
        assert(levels.take(l as int) =~= levels);
    }
    match best {
        Some(m) => m,
        None => 0,
    }
}

/// The larger of a maximum so far and the largest `max_seqno` of the pages.
pub open spec fn max_seqno_from(acc: u64, pages: Seq<PageMetaModel>) -> u64
    decreases pages.len(),
{
    if pages.len() == 0 {
        acc
    } else {
        let m = max_seqno_from(acc, pages.drop_last());
        if pages.last().max_seqno > m {
            pages.last().max_seqno
        } else {
            m
        }
    }
}

/// The largest `max_seqno` among the pages of all levels, zero where there
/// is no page.
pub open spec fn largest_seqno_of(levels: Seq<Seq<PageMetaModel>>) -> u64
    decreases levels.len(),
{
    if levels.len() == 0 {
        0
    } else {
        max_seqno_from(largest_seqno_of(levels.drop_last()), levels.last())
    }
}

/// The largest seqno is below that of no page.
pub proof fn lemma_max_seqno_from(acc: u64, pages: Seq<PageMetaModel>)
    ensures
        acc <= max_seqno_from(acc, pages),
        forall|i: int| 0 <= i < pages.len() ==> (#[trigger] pages[i]).max_seqno <= max_seqno_from(acc, pages),
    decreases pages.len(),
{
    if pages.len() > 0 {
        let front = pages.drop_last();
        lemma_max_seqno_from(acc, front);
        assert forall|i: int| 0 <= i < pages.len() implies (#[trigger] pages[i]).max_seqno
            <= max_seqno_from(acc, pages) by {
            if i < pages.len() - 1 {
                assert(front[i] == pages[i]);
            }
        }
    }
}

/// The largest seqno of the levels is below that of no page.
pub proof fn lemma_largest_seqno_of(levels: Seq<Seq<PageMetaModel>>)
    ensures
        forall|l: int, i: int|
            0 <= l < levels.len() && 0 <= i < levels[l].len() ==> (
            #[trigger] levels[l][i]).max_seqno <= largest_seqno_of(levels),
    decreases levels.len(),
{
    if levels.len() > 0 {
        let front = levels.drop_last();
        lemma_largest_seqno_of(front);
        lemma_max_seqno_from(largest_seqno_of(front), levels.last());
        assert forall|l: int, i: int|
            0 <= l < levels.len() && 0 <= i < levels[l].len() implies (
        #[trigger] levels[l][i]).max_seqno <= largest_seqno_of(levels) by {
            if l < levels.len() - 1 {
                assert(front[l] == levels[l]);
                assert(front[l][i].max_seqno <= largest_seqno_of(front));
            }
        }
    }
}

/// The largest seqno that a page of the manifest holds, zero where there is
/// no page.
pub fn largest_page_seqno(meta: &TableMeta) -> (m: u64)
    ensures
        m == largest_seqno_of(meta@.level),
{
    let ghost levels = levels_view(meta.level@);
    let mut best: u64 = 0;
    let mut l: usize = 0;
    proof {
        assert(levels.take(0) =~= Seq::<Seq<PageMetaModel>>::empty());
    }
    while l < meta.level.len()
        invariant
            0 <= l <= meta.level@.len(),
            levels == levels_view(meta.level@),
            best == largest_seqno_of(levels.take(l as int)),
        decreases meta.level@.len() - l,
    {
        let pages = &meta.level[l];
        let ghost these = metas_view(pages@);
        let ghost start = best;
        let mut i: usize = 0;
        proof {
            assert(these.take(0) =~= Seq::<PageMetaModel>::empty());
        }
        while i < pages.len()
            invariant
                0 <= i <= pages@.len(),
                these == metas_view(pages@),
                best == max_seqno_from(start, these.take(i as int)),
            decreases pages@.len() - i,
        {
            proof {
                assert(these.take(i + 1).drop_last() =~= these.take(i as int));
                assert(these.take(i + 1).last() == pages@[i as int]@);
            }
            if pages[i].max_seqno > best {
                best = pages[i].max_seqno;
            }
            i += 1;
        }
        proof {
            assert(these.take(i as int) =~= these);
            assert(levels.take(l + 1).drop_last() =~= levels.take(l as int));
            assert(levels.take(l + 1).last() == these);
        }
        l += 1;
    }
    proof {
        assert(levels.take(l as int) =~= levels);
    }
    best
}

/// Cuts the log where the pages allow it. Where the checkpoint that the
/// pages give is above the one in the manifest, the log is rewritten to it
/// and the manifest takes it; the result is `true`. Else nothing changes.
/// Where the log is corrupt nothing changes either.
pub fn maybe_checkpoint_wal(meta: &mut TableMeta, wal: &mut Wal) -> (r: Result<bool, Error>)
    ensures
        checkpoint_of(old(meta)@.level) <= old(meta)@.checkpoint_seqno ==> r == Ok::<bool, Error>(
            false,
        ) && final(meta)@ == old(meta)@ && final(wal)@ == old(wal)@,
        checkpoint_of(old(meta)@.level) > old(meta)@.checkpoint_seqno ==> match rewrite_bytes(
            old(wal)@,
            checkpoint_of(old(meta)@.level),
        ) {
            Ok(bytes) => r == Ok::<bool, Error>(true) && final(wal)@ == bytes && final(meta)@ == (
            TableMetaModel { checkpoint_seqno: checkpoint_of(old(meta)@.level), ..old(meta)@ }),
            Err(e) => r == Err::<bool, Error>(e) && final(meta)@ == old(meta)@ && final(wal)@
                == old(wal)@,
        },
{
    let next = compute_checkpoint_seqno(meta);
    if next <= meta.checkpoint_seqno {
        return Ok(false);
    }
    match wal.rewrite_to(next) {
        Err(e) => Err(e),
        Ok(()) => {
            meta.checkpoint_seqno = next;
            Ok(true)
        },
    }
}

} // verus!
