//! What the manifest knows of a page, and a level of pages.

use vstd::prelude::*;
use crate::keys::{key_before, key_le, key_lt, lemma_key_le_transitive, lemma_key_lt_total};

verus! {

/// The character of a decimal digit.
pub open spec fn digit_char(d: nat) -> char {
    ((48 + d) as u8) as char
}

/// A number in decimal, without leading zeros.
pub open spec fn decimal(n: nat) -> Seq<char>
    decreases n,
{
    if n < 10 {
        seq![digit_char(n)]
    } else {
        decimal(n / 10).push(digit_char(n % 10))
    }
}

/// The name of the file of a page: `page_`, the id in decimal, `.db`.
pub open spec fn page_file_name(page_id: u64) -> Seq<char> {
    "page_"@ + decimal(page_id as nat) + ".db"@
}

/// The name of the file of a page. The body calls `format!` of the standard
/// library with `page_{}.db`; that the id comes out in decimal, without
/// leading zeros, between the two literal parts is not proved but taken from
/// its documentation.
#[verifier::external_body]
fn format_page_file_name(page_id: u64) -> (name: String)
    ensures
        name@ == page_file_name(page_id),
{
    format!("page_{}.db", page_id)
}

/// A page's entry in the manifest, as a mathematical value.
pub struct PageMetaModel {
    pub page_id: u64,
    pub file_name: Seq<char>,
    pub min_id: Seq<char>,
    pub max_id: Seq<char>,
    pub number_of_records: usize,
    pub size_bytes: u64,
    pub max_seqno: u64,
}

/// What the manifest records of a page.
#[derive(Debug, PartialEq, Eq)]
pub struct PageMeta {
    pub page_id: u64,
    pub file_name: String,
    pub min_id: String,
    pub max_id: String,
    pub number_of_records: usize,
    pub size_bytes: u64,
    pub max_seqno: u64,
}

impl View for PageMeta {
    type V = PageMetaModel;

    open spec fn view(&self) -> PageMetaModel {
        PageMetaModel {
            page_id: self.page_id,
            file_name: self.file_name@,
            min_id: self.min_id@,
            max_id: self.max_id@,
            number_of_records: self.number_of_records,
            size_bytes: self.size_bytes,
            max_seqno: self.max_seqno,
        }
    }
}

impl Clone for PageMeta {
    fn clone(&self) -> (r: Self)
        ensures
            r@ == self@,
    {
        PageMeta {
            page_id: self.page_id,
            file_name: self.file_name.clone(),
            min_id: self.min_id.clone(),
            max_id: self.max_id.clone(),
            number_of_records: self.number_of_records,
            size_bytes: self.size_bytes,
            max_seqno: self.max_seqno,
        }
    }
}

/// The entries of a list as mathematical values.
pub open spec fn metas_view(pages: Seq<PageMeta>) -> Seq<PageMetaModel> {
    pages.map_values(|p: PageMeta| p@)
}

/// The ranges of ids of two pages have an id in common.
pub open spec fn ranges_overlap(a: PageMetaModel, b: PageMetaModel) -> bool {
    !(key_lt(a.max_id, b.min_id) || key_lt(b.max_id, a.min_id))
}

/// The range of ids of the page holds `id`.
pub open spec fn range_holds(p: PageMetaModel, id: Seq<char>) -> bool {
    key_le(p.min_id, id) && key_le(id, p.max_id)
}

/// No two pages of the list have an id in common in their ranges.
pub open spec fn non_overlapping(pages: Seq<PageMetaModel>) -> bool {
    forall|i: int, j: int|
        0 <= i < j < pages.len() ==> !ranges_overlap(#[trigger] pages[i], #[trigger] pages[j])
}

/// A copy of a list of entries.
pub fn clone_metas(pages: &Vec<PageMeta>) -> (out: Vec<PageMeta>)
    ensures
        metas_view(out@) == metas_view(pages@),
        out@.len() == pages@.len(),
{
    let mut out: Vec<PageMeta> = Vec::new();
    let mut i: usize = 0;
    while i < pages.len()
        invariant
            0 <= i <= pages@.len(),
            out@.len() == i,
            forall|j: int| 0 <= j < i ==> (#[trigger] out@[j])@ == pages@[j]@,
        decreases pages@.len() - i,
    {
        out.push(pages[i].clone());
        i += 1;
    }
    proof {
        assert(metas_view(out@) =~= metas_view(pages@));
    }
    out
}

impl PageMeta {
    /// The entry of the page with the given id. The file name follows from
    /// the id.
    pub fn new(
        page_id: u64,
        min_id: String,
        max_id: String,
        number_of_records: usize,
        size_bytes: u64,
        max_seqno: u64,
    ) -> (m: Self)
        ensures
            m@ == (PageMetaModel {
                page_id,
                file_name: page_file_name(page_id),
                min_id: min_id@,
                max_id: max_id@,
                number_of_records,
                size_bytes,
                max_seqno,
            }),
    {
        PageMeta {
            page_id,
            file_name: format_page_file_name(page_id),
            min_id,
            max_id,
            number_of_records,
            size_bytes,
            max_seqno,
        }
    }

    /// Whether the ranges of ids of the two pages have an id in common.
    pub fn overlaps(&self, other: &PageMeta) -> (r: bool)
        ensures
            r == ranges_overlap(self@, other@),
    {
        !(key_before(self.max_id.as_str(), other.min_id.as_str()) || key_before(
            other.max_id.as_str(),
            self.min_id.as_str(),
        ))
    }

    /// Whether the range of ids of the page holds `id`.
    pub fn holds(&self, id: &str) -> (r: bool)
        ensures
            r == range_holds(self@, id@),
    {
        !key_before(id, self.min_id.as_str()) && !key_before(self.max_id.as_str(), id)
    }
}

/// The smallest ids of the pages do not go down.
pub open spec fn sorted_by_min_id(pages: Seq<PageMetaModel>) -> bool {
    forall|i: int, j: int|
        0 <= i < j < pages.len() ==> key_le(#[trigger] pages[i].min_id, #[trigger] pages[j].min_id)
}

/// How many pages at the front have a smallest id that is not after `id`.
pub open spec fn level_position(pages: Seq<PageMetaModel>, id: Seq<char>) -> int
    decreases pages.len(),
{
    if pages.len() == 0 || !key_le(pages[0].min_id, id) {
        0
    } else {
        1 + level_position(pages.drop_first(), id)
    }
}

/// Where `level_position` points in a level in order.
pub proof fn lemma_level_position(pages: Seq<PageMetaModel>, id: Seq<char>, p: int)
    requires
        0 <= p <= pages.len(),
        forall|j: int| 0 <= j < p ==> key_le((#[trigger] pages[j]).min_id, id),
        p == pages.len() || !key_le(pages[p].min_id, id),
    ensures
        level_position(pages, id) == p,
    decreases pages.len(),
{
    if p > 0 {
        let tail = pages.drop_first();
        assert forall|j: int| 0 <= j < p - 1 implies key_le((#[trigger] tail[j]).min_id, id) by {
            assert(tail[j] == pages[j + 1]);
        }
        if p - 1 < tail.len() {
            assert(tail[p - 1] == pages[p]);
        }
        assert(key_le(pages[0].min_id, id));
        lemma_level_position(tail, id, p - 1);
    }
}

/// A page put in behind the pages that are not after it, and before
/// those that are, keeps the order.
pub proof fn lemma_insert_sorted(before: Seq<PageMetaModel>, p: int, x: PageMetaModel)
    requires
        sorted_by_min_id(before),
        0 <= p <= before.len(),
        p > 0 ==> key_le(before[p - 1].min_id, x.min_id),
        forall|j: int| p <= j < before.len() ==> key_lt(x.min_id, (#[trigger] before[j]).min_id),
    ensures
        sorted_by_min_id(before.insert(p, x)),
        level_position(before, x.min_id) == p,
{
    let after = before.insert(p, x);
    assert forall|j: int| 0 <= j < p implies key_le((#[trigger] before[j]).min_id, x.min_id) by {
        if j < p - 1 {
            assert(key_le(before[j].min_id, before[p - 1].min_id));
            lemma_key_le_transitive(before[j].min_id, before[p - 1].min_id, x.min_id);
        }
    }
    if p < before.len() {
        lemma_key_lt_total(x.min_id, before[p].min_id);
    }
    lemma_level_position(before, x.min_id, p);
    assert forall|i: int, j: int| 0 <= i < j < after.len() implies key_le(
        #[trigger] after[i].min_id,
        #[trigger] after[j].min_id,
    ) by {
        if j < p {
            assert(after[i] == before[i] && after[j] == before[j]);
        } else if j == p {
            assert(after[i] == before[i]);
        } else if i == p {
            assert(after[j] == before[j - 1]);
            lemma_key_lt_total(x.min_id, before[j - 1].min_id);
        } else if i < p {
            assert(after[i] == before[i] && after[j] == before[j - 1]);
        } else {
            assert(after[i] == before[i - 1] && after[j] == before[j - 1]);
        }
    }
}

/// A page that overlaps none of a list that is free of overlaps can be put
/// in anywhere.
pub proof fn lemma_insert_disjoint(before: Seq<PageMetaModel>, p: int, x: PageMetaModel)
    requires
        non_overlapping(before),
        0 <= p <= before.len(),
        forall|i: int| 0 <= i < before.len() ==> !ranges_overlap(#[trigger] before[i], x),
    ensures
        non_overlapping(before.insert(p, x)),
{
    let after = before.insert(p, x);
    assert forall|i: int, j: int| 0 <= i < j < after.len() implies !ranges_overlap(
        #[trigger] after[i],
        #[trigger] after[j],
    ) by {
        if j < p {
            assert(after[i] == before[i] && after[j] == before[j]);
        } else if j == p {
            assert(after[i] == before[i]);
            assert(!ranges_overlap(before[i], x));
        } else if i == p {
            assert(after[j] == before[j - 1]);
            assert(!ranges_overlap(before[j - 1], x));
        } else if i < p {
            assert(after[i] == before[i] && after[j] == before[j - 1]);
        } else {
            assert(after[i] == before[i - 1] && after[j] == before[j - 1]);
        }
    }
}

/// A level: pages in the order of their smallest ids. Above level zero no
/// two pages overlap.
#[derive(Debug)]
pub struct Level {
    pub level_id: u32,
    pub max_page_size_bytes: usize,
    pages: Vec<PageMeta>,
}

impl Level {
    /// The pages of the level.
    pub closed spec fn pages(&self) -> Seq<PageMetaModel> {
        metas_view(self.pages@)
    }

    /// The number of the level.
    pub closed spec fn id(&self) -> u32 {
        self.level_id
    }

    /// The largest size of a page of the level.
    pub closed spec fn page_size_limit(&self) -> usize {
        self.max_page_size_bytes
    }

    /// The pages stand in the order of their smallest ids, and above level
    /// zero none overlaps another.
    pub open spec fn wf(&self) -> bool {
        &&& sorted_by_min_id(self.pages())
        &&& self.id() > 0 ==> non_overlapping(self.pages())
    }

    /// An empty level.
    pub fn new(level_id: u32, max_page_size_bytes: usize) -> (l: Self)
        ensures
            l.id() == level_id,
            l.page_size_limit() == max_page_size_bytes,
            l.pages() == Seq::<PageMetaModel>::empty(),
            l.wf(),
    {
        let l = Level { level_id, max_page_size_bytes, pages: Vec::new() };
        proof {
            assert(metas_view(l.pages@) =~= Seq::<PageMetaModel>::empty());
        }
        l
    }

    /// Whether the page could be put in: at level zero always, above it
    /// where the page overlaps none that is there.
    pub fn accepts(&self, page_meta: &PageMeta) -> (r: bool)
        ensures
            r == (self.id() == 0 || forall|i: int|
                0 <= i < self.pages().len() ==> !ranges_overlap(
                    #[trigger] self.pages()[i],
                    page_meta@,
                )),
    {
        if self.level_id == 0 {
            return true;
        }
        let mut i: usize = 0;
        while i < self.pages.len()
            invariant
                0 <= i <= self.pages@.len(),
                self.level_id != 0,
                forall|j: int|
                    0 <= j < i ==> !ranges_overlap(#[trigger] self.pages()[j], page_meta@),
            decreases self.pages@.len() - i,
        {
            proof {
                assert(self.pages()[i as int] == self.pages@[i as int]@);
            }
            if self.pages[i].overlaps(page_meta) {
                return false;
            }
            i += 1;
        }
        true
    }

    /// Puts a page in, behind the pages whose smallest id is not after its
    /// own. Above level zero the page must overlap none that is there.
    pub fn insert_page(&mut self, page_meta: PageMeta) -> (r: Result<(), String>)
        requires
            old(self).wf(),
            old(self).id() > 0 ==> forall|i: int|
                0 <= i < old(self).pages().len() ==> !ranges_overlap(
                    #[trigger] old(self).pages()[i],
                    page_meta@,
                ),
        ensures
            r is Ok,
            final(self).wf(),
            final(self).id() == old(self).id(),
            final(self).page_size_limit() == old(self).page_size_limit(),
            final(self).pages() == old(self).pages().insert(
                level_position(old(self).pages(), page_meta@.min_id),
                page_meta@,
            ),
    {
        let ghost before = metas_view(self.pages@);
        let ghost x = page_meta@;
        let mut p: usize = self.pages.len();
        while p > 0 && key_before(page_meta.min_id.as_str(), self.pages[p - 1].min_id.as_str())
            invariant
                0 <= p <= self.pages@.len(),
                before == metas_view(self.pages@),
                x == page_meta@,
                forall|j: int|
                    p <= j < before.len() ==> key_lt(x.min_id, (#[trigger] before[j]).min_id),
            decreases p,
        {
            proof {
                assert(before[p - 1] == self.pages@[p - 1]@);
            }
            p -= 1;
        }
        proof {
            if p > 0 {
                assert(before[p - 1] == self.pages@[p - 1]@);
            }
        }
        self.pages.insert(p, page_meta);
        proof {
            assert(metas_view(self.pages@) =~= before.insert(p as int, x));
            lemma_insert_sorted(before, p as int, x);
            if self.level_id > 0 {
                lemma_insert_disjoint(before, p as int, x);
            }
        }
        Ok(())
    }

    /// The pages of the level, in their order.
    pub fn get_pages(&self) -> (pages: &Vec<PageMeta>)
        ensures
            metas_view(pages@) == self.pages(),
    {
        &self.pages
    }

    /// The number of pages.
    pub fn page_count(&self) -> (n: usize)
        ensures
            n == self.pages().len(),
    {
        self.pages.len()
    }

    /// Removes every page.
    pub fn clear(&mut self)
        ensures
            final(self).pages() == Seq::<PageMetaModel>::empty(),
            final(self).id() == old(self).id(),
            final(self).page_size_limit() == old(self).page_size_limit(),
            final(self).wf(),
    {
        self.pages.clear();
        proof {
            assert(metas_view(self.pages@) =~= Seq::<PageMetaModel>::empty());
        }
    }
}

} // verus!
