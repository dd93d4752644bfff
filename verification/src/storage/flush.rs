//! Cutting a run of records into pages.
//!
//! A flush of the memtable and a compaction both walk records in the order
//! of their ids and fill pages with them. A page is closed before a record
//! that would make its payload longer than the limit, and before a record
//! that would be one more than the largest number of records. A page takes
//! at least one record, however long.

use vstd::prelude::*;
use crate::error::Error;
use crate::lsm::level::{metas_view, page_file_name, PageMeta, PageMetaModel};
use crate::storage::memtable::MemTable;
use crate::storage::page::builder::{
    clip, page_bytes, page_wf, payload_len, Page, PageBuilder, PageModel,
};
use crate::storage::page::header::{enc_header, PageHeader};
use crate::storage::record::{records_view, Record, RecordModel};
use crate::storage::versions::{lemma_versions_add, versions_of};

verus! {

/// The largest payload of a page that a flush makes: 32 KiB.
pub const MAX_PER_PAGE_SIZE: usize = 32768;

/// The largest number of records of a page that a flush makes.
pub const MAX_RECORDS_PER_PAGE: usize = 1024;

/// The state of the cutting: the chunks that are closed, and the one that
/// is being filled.
pub struct Chunking {
    pub done: Seq<Seq<RecordModel>>,
    pub cur: Seq<RecordModel>,
}

/// Whether the chunk is closed before `x`.
pub open spec fn must_cut(cur: Seq<RecordModel>, x: RecordModel, max_bytes: usize, max_records: usize)
    -> bool {
    cur.len() > 0 && (clip(payload_len(cur.push(x))) > max_bytes || cur.len() >= max_records)
}

/// The cutting of the records, one after the other.
pub open spec fn chunking(stream: Seq<RecordModel>, max_bytes: usize, max_records: usize)
    -> Chunking
    decreases stream.len(),
{
    if stream.len() == 0 {
        Chunking { done: Seq::empty(), cur: Seq::empty() }
    } else {
        let c = chunking(stream.drop_last(), max_bytes, max_records);
        let x = stream.last();
        if must_cut(c.cur, x, max_bytes, max_records) {
            Chunking { done: c.done.push(c.cur), cur: seq![x] }
        } else {
            Chunking { done: c.done, cur: c.cur.push(x) }
        }
    }
}

/// The chunks into which the records are cut: one for each page.
pub open spec fn chunks(stream: Seq<RecordModel>, max_bytes: usize, max_records: usize) -> Seq<
    Seq<RecordModel>,
> {
    let c = chunking(stream, max_bytes, max_records);
    if c.cur.len() > 0 {
        c.done.push(c.cur)
    } else {
        c.done
    }
}

/// The chunks one after the other.
pub open spec fn joined(cs: Seq<Seq<RecordModel>>) -> Seq<RecordModel>
    decreases cs.len(),
{
    if cs.len() == 0 {
        Seq::empty()
    } else {
        joined(cs.drop_last()) + cs.last()
    }
}

/// What the cutting keeps: every record, in its place; no chunk is empty or
/// has more than the largest number of records; there are no more chunks
/// than records, and none where there is no record.
pub proof fn lemma_chunking(stream: Seq<RecordModel>, max_bytes: usize, max_records: usize)
    requires
        max_records >= 1,
    ensures
        joined(chunking(stream, max_bytes, max_records).done) + chunking(
            stream,
            max_bytes,
            max_records,
        ).cur == stream,
        joined(chunks(stream, max_bytes, max_records)) == stream,
        forall|i: int|
            0 <= i < chunks(stream, max_bytes, max_records).len() ==> 0 < (#[trigger] chunks(
                stream,
                max_bytes,
                max_records,
            )[i]).len() <= max_records,
        chunking(stream, max_bytes, max_records).cur.len() <= max_records,
        stream.len() > 0 ==> chunking(stream, max_bytes, max_records).cur.len() > 0,
        chunks(stream, max_bytes, max_records).len() <= stream.len(),
        stream.len() > 0 ==> chunks(stream, max_bytes, max_records).len() > 0,
    decreases stream.len(),
{
    let c = chunking(stream, max_bytes, max_records);
    let cs = chunks(stream, max_bytes, max_records);
    if stream.len() == 0 {
        assert(joined(c.done) + c.cur =~= stream);
    } else {
        let front = stream.drop_last();
        let x = stream.last();
        lemma_chunking(front, max_bytes, max_records);
        let f = chunking(front, max_bytes, max_records);
        let fs = chunks(front, max_bytes, max_records);
        assert(front.push(x) =~= stream);
        if must_cut(f.cur, x, max_bytes, max_records) {
            assert(c.done.drop_last() =~= f.done);
            assert(joined(c.done) + c.cur =~= (joined(f.done) + f.cur).push(x));
            assert(fs == c.done);
        } else {
            assert(joined(c.done) + c.cur =~= (joined(f.done) + f.cur).push(x));
        }
        assert(cs.drop_last() =~= c.done);
        assert(cs.last() == c.cur);
        assert forall|i: int| 0 <= i < cs.len() implies 0 < (#[trigger] cs[i]).len()
            <= max_records by {
            if i < c.done.len() {
                assert(cs[i] == c.done[i]);
                if must_cut(f.cur, x, max_bytes, max_records) {
                    assert(c.done[i] == fs[i]);
                } else {
                    assert(c.done[i] == fs[i]);
                }
            }
        }
    }
}

/// The page is one that `build` makes of the records.
pub open spec fn built_from(p: PageModel, rs: Seq<RecordModel>) -> bool {
    &&& page_wf(p)
    &&& forall|id: Seq<char>| #[trigger] versions_of(p.records, id) == versions_of(rs, id)
}

/// A length as a `u64`: lengths that do not fit become `u64::MAX`.
pub open spec fn clip64(n: int) -> u64 {
    if n > u64::MAX {
        u64::MAX
    } else if n < 0 {
        0
    } else {
        n as u64
    }
}

/// What the manifest records of a page that gets the id `page_id`.
pub open spec fn meta_of(p: PageModel, page_id: u64) -> PageMetaModel {
    PageMetaModel {
        page_id,
        file_name: page_file_name(page_id),
        min_id: p.header.min_id,
        max_id: p.header.max_id,
        number_of_records: p.header.num_records as usize,
        size_bytes: clip64(page_bytes(p).len() as int),
        max_seqno: p.header.page_seqno,
    }
}

/// The pages as mathematical values.
pub open spec fn pages_view(pages: Seq<Page>) -> Seq<PageModel> {
    pages.map_values(|p: Page| p@)
}

/// The pages are those of the chunks, one page for each chunk, and the
/// entries are those of the pages, with ids that go up by one from `first`.
pub open spec fn pages_for(
    pages: Seq<PageModel>,
    metas: Seq<PageMetaModel>,
    cs: Seq<Seq<RecordModel>>,
    first: u64,
) -> bool {
    &&& pages.len() == cs.len()
    &&& metas.len() == cs.len()
    &&& forall|i: int|
        0 <= i < cs.len() ==> built_from(#[trigger] pages[i], cs[i]) && metas[i] == meta_of(
            pages[i],
            (first + i) as u64,
        )
}

/// The versions of `id` in the chunks, chunk after chunk.
pub open spec fn versions_in_chunks(cs: Seq<Seq<RecordModel>>, id: Seq<char>) -> Seq<RecordModel>
    decreases cs.len(),
{
    if cs.len() == 0 {
        Seq::empty()
    } else {
        versions_in_chunks(cs.drop_last(), id) + versions_of(cs.last(), id)
    }
}

/// The versions of `id` in the pages, page after page.
pub open spec fn versions_in_pages(pages: Seq<PageModel>, id: Seq<char>) -> Seq<RecordModel>
    decreases pages.len(),
{
    if pages.len() == 0 {
        Seq::empty()
    } else {
        versions_in_pages(pages.drop_last(), id) + versions_of(pages.last().records, id)
    }
}

/// The versions of a key in the chunks are its versions in the chunks put
/// together.
pub proof fn lemma_versions_in_chunks(cs: Seq<Seq<RecordModel>>, id: Seq<char>)
    ensures
        versions_in_chunks(cs, id) == versions_of(joined(cs), id),
    decreases cs.len(),
{
    if cs.len() > 0 {
        lemma_versions_in_chunks(cs.drop_last(), id);
        lemma_versions_add(joined(cs.drop_last()), cs.last(), id);
    }
}

/// The pages of some chunks hold of every key the versions that the chunks
/// hold, in their order.
pub proof fn lemma_versions_in_built_pages(
    pages: Seq<PageModel>,
    metas: Seq<PageMetaModel>,
    cs: Seq<Seq<RecordModel>>,
    first: u64,
    id: Seq<char>,
)
    requires
        pages_for(pages, metas, cs, first),
    ensures
        versions_in_pages(pages, id) == versions_in_chunks(cs, id),
    decreases cs.len(),
{
    if cs.len() > 0 {
        let front_pages = pages.drop_last();
        let front_metas = metas.drop_last();
        let front = cs.drop_last();
        assert forall|i: int| 0 <= i < front.len() implies built_from(
            #[trigger] front_pages[i],
            front[i],
        ) && front_metas[i] == meta_of(front_pages[i], (first + i) as u64) by {
            assert(front_pages[i] == pages[i]);
            assert(built_from(pages[i], cs[i]));
        }
        lemma_versions_in_built_pages(front_pages, front_metas, front, first, id);
        assert(pages.last() == pages[cs.len() - 1]);
        assert(built_from(pages[cs.len() - 1], cs[cs.len() - 1]));
    }
}

/// A flush loses nothing: the pages that records are cut into hold of every
/// key the versions that the records held, in their order.
pub proof fn lemma_cut_keeps_versions(
    stream: Seq<RecordModel>,
    max_bytes: usize,
    max_records: usize,
    pages: Seq<PageModel>,
    metas: Seq<PageMetaModel>,
    first: u64,
    id: Seq<char>,
)
    requires
        max_records >= 1,
        pages_for(pages, metas, chunks(stream, max_bytes, max_records), first),
    ensures
        versions_in_pages(pages, id) == versions_of(stream, id),
{
    let cs = chunks(stream, max_bytes, max_records);
    lemma_chunking(stream, max_bytes, max_records);
    lemma_versions_in_built_pages(pages, metas, cs, first, id);
    lemma_versions_in_chunks(cs, id);
}

/// The entry of a page that gets the id `page_id`.
pub fn page_meta(page: &Page, page_id: u64) -> (m: PageMeta)
    ensures
        m@ == meta_of(page@, page_id),
{
    let head = page.header.encode().len();
    let body = page.payload.len();
    let size: u64 = if head as u64 > u64::MAX - body as u64 {
        u64::MAX
    } else {
        head as u64 + body as u64
    };
    PageMeta::new(
        page_id,
        page.header.min_id.clone(),
        page.header.max_id.clone(),
        page.header.num_records as usize,
        size,
        page.header.page_seqno,
    )
}

/// What cutting records into pages gives: the id of the page that comes
/// after them, the pages, and their entries for the manifest.
#[derive(Debug)]
pub struct BuiltPages {
    pub next_page_id: u64,
    pub metas: Vec<PageMeta>,
    pub pages: Vec<Page>,
}

/// Cuts the records into pages and builds them. The pages get the ids from
/// `first_page_id` on.
pub fn build_pages(
    records: &Vec<Record>,
    max_bytes: usize,
    max_records: usize,
    first_page_id: u64,
) -> (r: BuiltPages)
    requires
        1 <= max_records <= u32::MAX,
        first_page_id + records@.len() <= u64::MAX,
    ensures
        pages_for(
            pages_view(r.pages@),
            metas_view(r.metas@),
            chunks(records_view(records@), max_bytes, max_records),
            first_page_id,
        ),
        r.next_page_id == first_page_id + chunks(
            records_view(records@),
            max_bytes,
            max_records,
        ).len(),
{
    let ghost all = records_view(records@);
    let mut builder = PageBuilder::new();
    let mut pages: Vec<Page> = Vec::new();
    let mut metas: Vec<PageMeta> = Vec::new();
    let mut next_page_id: u64 = first_page_id;
    let mut i: usize = 0;
    proof {
        assert(all.take(0) =~= Seq::<RecordModel>::empty());
    }
    while i < records.len()
        invariant
            0 <= i <= records@.len(),
            1 <= max_records <= u32::MAX,
            first_page_id + records@.len() <= u64::MAX,
            all == records_view(records@),
            chunking(all.take(i as int), max_bytes, max_records).cur == builder@,
            pages_for(
                pages_view(pages@),
                metas_view(metas@),
                chunking(all.take(i as int), max_bytes, max_records).done,
                first_page_id,
            ),
            next_page_id == first_page_id + pages@.len(),
            pages@.len() + (if builder@.len() > 0 { 1int } else { 0int }) <= i,
            builder@.len() <= max_records,
        decreases records@.len() - i,
    {
        let rec = records[i].clone();
        proof {
            assert(all.take(i + 1).drop_last() =~= all.take(i as int));
            assert(all.take(i + 1).last() == all[i as int]);
            lemma_chunking(all.take(i as int), max_bytes, max_records);
            lemma_chunking(all.take(i + 1), max_bytes, max_records);
        }
        if !builder.is_empty() && (builder.estimate_size_with(&rec) > max_bytes || builder.len()
            >= max_records) {
            let mut full = PageBuilder::new();
            std::mem::swap(&mut full, &mut builder);
            let ghost chunk = full@;
            match full.build() {
                Ok(page) => {
                    let meta = page_meta(&page, next_page_id);
                    let ghost old_pages = pages_view(pages@);
                    let ghost old_metas = metas_view(metas@);
                    pages.push(page);
                    metas.push(meta);
                    proof {
                        assert(pages_view(pages@) =~= old_pages.push(page@));
                        assert(metas_view(metas@) =~= old_metas.push(meta@));
                    }
                    next_page_id = next_page_id + 1;
                },
                Err(_) => {},
            }
        }
        builder.add(rec);
        i += 1;
    }
    proof {
        assert(all.take(i as int) =~= all);
        lemma_chunking(all, max_bytes, max_records);
    }
    if !builder.is_empty() {
        match builder.build() {
            Ok(page) => {
                let meta = page_meta(&page, next_page_id);
                let ghost old_pages = pages_view(pages@);
                let ghost old_metas = metas_view(metas@);
                pages.push(page);
                metas.push(meta);
                proof {
                    assert(pages_view(pages@) =~= old_pages.push(page@));
                    assert(metas_view(metas@) =~= old_metas.push(meta@));
                }
                next_page_id = next_page_id + 1;
            },
            Err(_) => {},
        }
    }
    BuiltPages { next_page_id, metas, pages }
}

/// The pages that a flush of the memtable makes: its records in their
/// order, cut at 32 KiB of payload and at 1024 records. The memtable stays
/// as it is. An empty memtable cannot be flushed.
pub fn flush_memtable(memtable: &MemTable, current_page_id: u64) -> (r: Result<BuiltPages, Error>)
    requires
        current_page_id + memtable@.len() <= u64::MAX,
    ensures
        r is Err <==> memtable@.len() == 0,
        r is Err ==> r->Err_0 == Error::Empty,
        r matches Ok(built) ==> pages_for(
            pages_view(built.pages@),
            metas_view(built.metas@),
            chunks(memtable@, MAX_PER_PAGE_SIZE, MAX_RECORDS_PER_PAGE),
            current_page_id,
        ) && built.next_page_id == current_page_id + chunks(
            memtable@,
            MAX_PER_PAGE_SIZE,
            MAX_RECORDS_PER_PAGE,
        ).len(),
{
    if memtable.is_empty() {
        return Err(Error::Empty);
    }
    Ok(build_pages(memtable.records(), MAX_PER_PAGE_SIZE, MAX_RECORDS_PER_PAGE, current_page_id))
}

} // verus!
