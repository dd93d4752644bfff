//! Pages in memory, and the builder that makes them.

use vstd::prelude::*;
use crate::codec::{enc_items, enc_u64, lemma_enc_items_push, lemma_parse_enc_u64};
use crate::error::Error;
use crate::keys::{
    key_before, key_le, key_lt, lemma_key_le_transitive, lemma_key_lt_total,
};
use crate::storage::page::header::{
    crc32, enc_header, header_fits, header_valid, put_header, HeaderModel, PageHeader, PAGE_MAGIC,
    PAGE_VERSION,
};
use crate::storage::record::{
    enc_record, enc_records, put_records, record_encoder, records_valid, records_view, Record,
    RecordModel,
};
use crate::storage::versions::{
    lemma_versions_insert, max_seqno, max_seqno_of, sorted_by_id, versions_of,
};

verus! {

/// A page as a mathematical value.
pub struct PageModel {
    pub header: HeaderModel,
    pub records: Seq<RecordModel>,
    pub payload: Seq<u8>,
}

/// A page in memory: the header, the records, and the payload, which is the
/// records as bytes.
#[derive(Debug, PartialEq, Eq)]
pub struct Page {
    pub header: PageHeader,
    pub records: Vec<Record>,
    pub payload: Vec<u8>,
}

impl View for Page {
    type V = PageModel;

    open spec fn view(&self) -> PageModel {
        PageModel {
            header: self.header@,
            records: records_view(self.records@),
            payload: self.payload@,
        }
    }
}

/// The bytes of a page file: the header, then the payload.
pub open spec fn page_bytes(p: PageModel) -> Seq<u8> {
    enc_header(p.header) + p.payload
}

/// What holds of every page that was read: the header passes `validate`, the
/// checksum is that of the payload, the payload is the records as bytes, the
/// header counts them, and their ids do not go down.
pub open spec fn page_checked(p: PageModel) -> bool {
    &&& header_valid(p.header)
    &&& header_fits(p.header)
    &&& p.header.checksum == crc32(p.payload)
    &&& records_valid(p.records)
    &&& p.payload == enc_records(p.records)
    &&& p.header.num_records == p.records.len()
    &&& sorted_by_id(p.records)
}

/// What holds of every page that was built: what holds of one that was read,
/// and the header names the first id, the last id and the largest seqno of
/// records of which there is at least one.
pub open spec fn page_wf(p: PageModel) -> bool {
    &&& page_checked(p)
    &&& p.records.len() > 0
    &&& p.header.min_id == p.records.first().id
    &&& p.header.max_id == p.records.last().id
    &&& p.header.page_seqno == max_seqno(p.records)
}

/// The length of the payload that holds the records.
pub open spec fn payload_len(rs: Seq<RecordModel>) -> int {
    enc_records(rs).len() as int
}

/// A length as a `usize`: lengths that do not fit become `usize::MAX`.
pub open spec fn clip(n: int) -> usize {
    if n > usize::MAX {
        usize::MAX
    } else if n < 0 {
        0
    } else {
        n as usize
    }
}

/// One record more makes the payload longer by the bytes of the record.
pub proof fn lemma_payload_len_push(rs: Seq<RecordModel>, x: RecordModel)
    ensures
        payload_len(rs.push(x)) == payload_len(rs) + enc_record(x).len(),
        payload_len(rs) >= 8,
{
    lemma_enc_items_push(rs, x, record_encoder());
    lemma_parse_enc_u64(rs.len() as u64, Seq::empty());
    lemma_parse_enc_u64(rs.push(x).len() as u64, Seq::empty());
    assert(record_encoder()(x) == enc_record(x));
}

/// The payload that holds no record is the count alone: eight bytes.
pub proof fn lemma_payload_len_empty()
    ensures
        payload_len(Seq::<RecordModel>::empty()) == 8,
{
    lemma_parse_enc_u64(0, Seq::empty());
    assert(enc_items(Seq::<RecordModel>::empty(), record_encoder()).len() == 0);
}

impl Page {
    /// The bytes of the page file.
    pub fn to_bytes(&self) -> (bytes: Vec<u8>)
        ensures
            bytes@ == page_bytes(self@),
            header_fits(self@.header),
    {
        let mut out: Vec<u8> = Vec::new();
        put_header(&mut out, &self.header);
        crate::codec::append_bytes(&mut out, self.payload.as_slice());
        proof {
            assert(out@ =~= page_bytes(self@));
        }
        out
    }
}

impl Clone for Page {
    fn clone(&self) -> (r: Self)
        ensures
            r@ == self@,
    {
        let records = clone_records(&self.records);
        let mut payload: Vec<u8> = Vec::new();
        crate::codec::append_bytes(&mut payload, self.payload.as_slice());
        proof {
            assert(payload@ =~= self.payload@);
        }
        Page { header: self.header.clone(), records, payload }
    }
}

/// A copy of a list of records.
pub fn clone_records(records: &Vec<Record>) -> (out: Vec<Record>)
    ensures
        records_view(out@) == records_view(records@),
        out@.len() == records@.len(),
{
    let mut out: Vec<Record> = Vec::new();
    let mut i: usize = 0;
    while i < records.len()
        invariant
            0 <= i <= records@.len(),
            out@.len() == i,
            forall|j: int| 0 <= j < i ==> (#[trigger] out@[j])@ == records@[j]@,
        decreases records@.len() - i,
    {
        out.push(records[i].clone());
        i += 1;
    }
    proof {
        assert(records_view(out@) =~= records_view(records@));
    }
    out
}

/// The records in the order of their ids; records with one id keep the order
/// in which they stood.
pub fn sort_by_id(records: &Vec<Record>) -> (out: Vec<Record>)
    ensures
        out@.len() == records@.len(),
        sorted_by_id(records_view(out@)),
        forall|id: Seq<char>| #[trigger]
            versions_of(records_view(out@), id) == versions_of(records_view(records@), id),
{
    let mut out: Vec<Record> = Vec::new();
    let mut k: usize = 0;
    let ghost all = records_view(records@);
    proof {
        assert(all.take(0) =~= Seq::<RecordModel>::empty());
        assert(records_view(out@) =~= Seq::<RecordModel>::empty());
    }
    while k < records.len()
        invariant
            0 <= k <= records@.len(),
            all == records_view(records@),
            out@.len() == k,
            sorted_by_id(records_view(out@)),
            forall|id: Seq<char>| #[trigger]
                versions_of(records_view(out@), id) == versions_of(all.take(k as int), id),
        decreases records@.len() - k,
    {
        let x = records[k].clone();
        let ghost before = records_view(out@);
        let mut p: usize = out.len();
        while p > 0 && key_before(x.id.as_str(), out[p - 1].id.as_str())
            invariant
                0 <= p <= out@.len(),
                before == records_view(out@),
                forall|j: int| p <= j < before.len() ==> key_lt(x@.id, (#[trigger] before[j]).id),
            decreases p,
        {
            p -= 1;
        }
        out.insert(p, x);
        proof {
            let after = records_view(out@);
            assert(after =~= before.insert(p as int, x@));
            assert forall|i: int, j: int| 0 <= i < j < after.len() implies key_le(
                #[trigger] after[i].id,
                #[trigger] after[j].id,
            ) by {
                if j < p {
                    assert(after[i] == before[i] && after[j] == before[j]);
                } else if j == p {
                    assert(after[i] == before[i]);
                    assert(key_le(before[p - 1].id, x@.id));
                    if i < p - 1 {
                        assert(key_le(before[i].id, before[p - 1].id));
                        lemma_key_le_transitive(before[i].id, before[p - 1].id, x@.id);
                    }
                } else if i == p {
                    assert(after[j] == before[j - 1]);
                    lemma_key_lt_total(x@.id, before[j - 1].id);
                } else if i < p {
                    assert(after[i] == before[i] && after[j] == before[j - 1]);
                } else {
                    assert(after[i] == before[i - 1] && after[j] == before[j - 1]);
                }
            }
            assert forall|j: int| p <= j < before.len() implies (#[trigger] before[j]).id
                != x@.id by {
                lemma_key_lt_total(x@.id, before[j].id);
            }
            let next = all.take(k + 1);
            assert(next.drop_last() =~= all.take(k as int));
            assert(next.last() == x@);
            assert forall|id: Seq<char>| #[trigger]
                versions_of(after, id) == versions_of(next, id) by {
                lemma_versions_insert(before, p as int, x@, id);
                assert(versions_of(before, id) == versions_of(all.take(k as int), id));
            }
        }
        k += 1;
    }
    proof {
        assert(all.take(k as int) =~= all);
    }
    out
}

/// Collects records and makes a page of them.
pub struct PageBuilder {
    records: Vec<Record>,
    size: usize,
}

impl View for PageBuilder {
    type V = Seq<RecordModel>;

    closed spec fn view(&self) -> Seq<RecordModel> {
        records_view(self.records@)
    }
}

impl PageBuilder {
    #[verifier::type_invariant]
    spec fn size_is_kept(self) -> bool {
        self.size == clip(payload_len(records_view(self.records@)))
    }

    /// A builder that holds no record.
    pub fn new() -> (b: Self)
        ensures
            b@ == Seq::<RecordModel>::empty(),
    {
        proof {
            lemma_payload_len_empty();
            assert(records_view(Seq::<Record>::empty()) =~= Seq::<RecordModel>::empty());
        }
        PageBuilder { records: Vec::new(), size: 8 }
    }

    /// The number of records held.
    pub fn len(&self) -> (n: usize)
        ensures
            n == self@.len(),
    {
        self.records.len()
    }

    /// Whether no record is held.
    pub fn is_empty(&self) -> (r: bool)
        ensures
            r == (self@.len() == 0),
    {
        self.records.len() == 0
    }

    /// The length that the payload would have with the records held, capped
    /// at `usize::MAX`.
    pub fn size(&self) -> (n: usize)
        ensures
            n == clip(payload_len(self@)),
    {
        proof {
            use_type_invariant(self);
        }
        self.size
    }

    /// The length that the payload would have if `record` were added, capped
    /// at `usize::MAX`.
    pub fn estimate_size_with(&self, record: &Record) -> (n: usize)
        ensures
            n == clip(payload_len(self@.push(record@))),
    {
        proof {
            use_type_invariant(self);
            lemma_payload_len_push(self@, record@);
        }
        let bytes = record.encode();
        let len = bytes.len();
        if len > usize::MAX - self.size {
            usize::MAX
        } else {
            self.size + len
        }
    }

    /// Adds a record after those held.
    pub fn add(&mut self, record: Record)
        ensures
            final(self)@ == old(self)@.push(record@),
    {
        let size = self.estimate_size_with(&record);
        let mut taken = PageBuilder::new();
        std::mem::swap(self, &mut taken);
        let mut records = taken.records;
        let ghost before = records@;
        records.push(record);
        proof {
            assert(records_view(records@) =~= records_view(before).push(record@));
        }
        *self = PageBuilder { records, size };
    }

    /// Makes the page: the records in the order of their ids, records of one
    /// id in the order in which they were added; a header that names the
    /// smallest id, the largest id, the number of records and the largest
    /// seqno; the payload and its checksum. A builder that holds no record
    /// makes no page.
    pub fn build(self) -> (r: Result<Page, Error>)
        requires
            self@.len() <= u32::MAX,
        ensures
            r is Err <==> self@.len() == 0,
            r is Err ==> r == Err::<Page, Error>(Error::Empty),
            r matches Ok(page) ==> page_wf(page@) && forall|id: Seq<char>| #[trigger]
                versions_of(page@.records, id) == versions_of(self@, id),
    {
        if self.records.len() == 0 {
            return Err(Error::Empty);
        }
        let records = sort_by_id(&self.records);
        let n = records.len();
        let min_id = records[0].id.clone();
        let max_id = records[n - 1].id.clone();
        let page_seqno = max_seqno_of(&records);
        let mut payload: Vec<u8> = Vec::new();
        put_records(&mut payload, &records);
        let checksum = PageHeader::compute_checksum(payload.as_slice());
        let mut header = PageHeader::new(min_id, max_id, n as u32, page_seqno);
        header.checksum = checksum;
        proof {
            let rs = records_view(records@);
            assert(payload@ =~= enc_records(rs));
            assert(rs.first() == records@[0]@);
            assert(rs.last() == records@[n - 1]@);
            if n > 1 {
                assert(key_le(rs[0].id, rs[n - 1].id));
            }
            assert(crate::codec::str_fits(rs[0].id));
            assert(crate::codec::str_fits(rs[n - 1].id));
        }
        Ok(Page { header, records, payload })
    }
}

} // verus!
