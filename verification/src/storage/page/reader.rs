//! Reading a page from the bytes of its file.

use vstd::prelude::*;
use vstd::slice::{slice_subrange, slice_to_vec};
use crate::error::Error;
use crate::keys::{key_le, key_order, lemma_key_le_transitive, KeyOrder};
use crate::storage::page::builder::{page_bytes, page_checked, Page, PageModel};
use crate::storage::page::header::{
    lemma_enc_parse_header, lemma_parse_enc_header, parse_header, take_header, PageHeader,
};
use crate::storage::record::{
    lemma_enc_parse_records, lemma_parse_enc_records, parse_records, records_view, take_records,
    Record, RecordModel,
};
use crate::storage::versions::sorted_by_id;

verus! {

/// Whether the ids of the records do not go down.
pub fn is_sorted_by_id(records: &Vec<Record>) -> (r: bool)
    ensures
        r == sorted_by_id(records_view(records@)),
{
    let ghost all = records_view(records@);
    let mut j: usize = 1;
    while j < records.len()
        invariant
            1 <= j,
            all == records_view(records@),
            forall|a: int, c: int|
                0 <= a < c < j && c < all.len() ==> key_le(
                    #[trigger] all[a].id,
                    #[trigger] all[c].id,
                ),
        decreases records@.len() - j,
    {
        if key_order(records[j - 1].id.as_str(), records[j].id.as_str()) == KeyOrder::Greater {
            proof {
                assert(!key_le(all[j - 1].id, all[j as int].id));
            }
            return false;
        }
        proof {
            assert forall|a: int, c: int| 0 <= a < c < j + 1 && c < all.len() implies key_le(
                #[trigger] all[a].id,
                #[trigger] all[c].id,
            ) by {
                if c == j && a < j - 1 {
                    lemma_key_le_transitive(all[a].id, all[j - 1].id, all[j as int].id);
                }
            }
        }
        j += 1;
    }
    true
}

/// Two pages that pass the checks and have the same bytes are the same page:
/// a page that was built and written is read back with its header and its
/// records.
pub proof fn lemma_page_roundtrip(p: PageModel, q: PageModel)
    requires
        page_checked(p),
        page_checked(q),
        page_bytes(p) == page_bytes(q),
    ensures
        p == q,
{
    lemma_parse_enc_header(p.header, p.payload);
    lemma_parse_enc_header(q.header, q.payload);
    lemma_parse_enc_records(p.records, Seq::empty());
    lemma_parse_enc_records(q.records, Seq::empty());
    assert(p.payload + Seq::<u8>::empty() =~= p.payload);
    assert(q.payload + Seq::<u8>::empty() =~= q.payload);
}

/// The page whose file holds these bytes: the header, then the payload.
///
/// The header is read and validated, the checksum of the payload is computed
/// and compared, the records are read from the payload, counted and their
/// order is checked. The bytes are accepted exactly where they are those of a
/// page that passes these checks; all others are refused as corrupt.
pub fn read_page(bytes: &[u8]) -> (r: Result<Page, Error>)
    ensures
        match r {
            Ok(page) => page_checked(page@) && page_bytes(page@) == bytes@,
            Err(e) => e == Error::Corrupt && forall|p: PageModel|
                page_checked(p) ==> #[trigger] page_bytes(p) != bytes@,
        },
{
    proof {
        assert(bytes@.skip(0) =~= bytes@);
        assert forall|p: PageModel| page_checked(p) && #[trigger] page_bytes(p)
            == bytes@ implies parse_header(bytes@) == Some((p.header, p.payload))
            && parse_records(p.payload) == Some((p.records, Seq::<u8>::empty())) by {
            lemma_parse_enc_header(p.header, p.payload);
            lemma_parse_enc_records(p.records, Seq::empty());
            assert(p.payload + Seq::<u8>::empty() =~= p.payload);
        }
    }
    let (header, start) = match take_header(bytes, 0) {
        Some(p) => p,
        None => { return Err(Error::Corrupt); },
    };
    let payload = slice_to_vec(slice_subrange(bytes, start, bytes.len()));
    proof {
        assert(payload@ =~= bytes@.skip(start as int));
        lemma_enc_parse_header(bytes@);
    }
    if header.validate_with(payload.as_slice()).is_err() {
        return Err(Error::Corrupt);
    }
    proof {
        assert(payload@.skip(0) =~= payload@);
    }
    let (records, end) = match take_records(payload.as_slice(), 0) {
        Some(p) => p,
        None => { return Err(Error::Corrupt); },
    };
    if end != payload.len() {
        proof {
            assert(payload@.skip(end as int).len() > 0);
        }
        return Err(Error::Corrupt);
    }
    proof {
        assert(payload@.skip(end as int) =~= Seq::<u8>::empty());
        lemma_enc_parse_records(payload@);
        assert(crate::storage::record::enc_records(records_view(records@)) + Seq::<u8>::empty()
            =~= crate::storage::record::enc_records(records_view(records@)));
    }
    if records.len() > u32::MAX as usize || records.len() as u32 != header.num_records {
        return Err(Error::Corrupt);
    }
    if !is_sorted_by_id(&records) {
        return Err(Error::Corrupt);
    }
    Ok(Page { header, records, payload })
}

} // verus!
