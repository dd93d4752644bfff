//! Records: the versioned, keyed tuples that the engine stores.
//!
//! A record is one version of a key. Its `id` is the key, its `seqno` tells
//! the versions of a key apart and orders them, and a tombstone marks the key
//! as deleted from that version on.

use vstd::prelude::*;
use crate::codec::{
    enc_bool, enc_items, enc_str, enc_u64, lemma_enc_items_push, lemma_enc_parse_bool,
    lemma_enc_parse_items, lemma_enc_parse_str, lemma_enc_parse_u64, lemma_parse_enc_bool,
    lemma_parse_enc_items, lemma_parse_enc_str, lemma_parse_enc_u64, lemma_parse_items_none,
    lemma_parse_items_step, parse_bool, parse_items, parse_str, parse_u64, put_bool, put_str,
    put_u64, str_fits, take_bool, take_str, take_u64,
};
use crate::error::Error;
use crate::storage::fields::{
    enc_fields, field_of, fields_from_pairs, fields_valid, lemma_enc_parse_fields,
    lemma_parse_enc_fields, parse_fields, put_fields, take_fields, FieldMap, FieldModel, Fields,
};
pub use crate::storage::fields::{FieldValue, FloatConversionError, NotNan};

verus! {

/// A record as a mathematical value.
pub struct RecordModel {
    pub id: Seq<char>,
    pub seqno: u64,
    pub is_tombstone: bool,
    pub data: Fields,
}

/// One version of a key.
#[derive(Debug, PartialEq, Eq)]
pub struct Record {
    pub id: String,
    pub seqno: u64,
    pub is_tombstone: bool,
    pub data: FieldMap,
}

impl View for Record {
    type V = RecordModel;

    open spec fn view(&self) -> RecordModel {
        RecordModel {
            id: self.id@,
            seqno: self.seqno,
            is_tombstone: self.is_tombstone,
            data: self.data@,
        }
    }
}

impl Clone for Record {
    fn clone(&self) -> (r: Self)
        ensures
            r@ == self@,
    {
        Record {
            id: self.id.clone(),
            seqno: self.seqno,
            is_tombstone: self.is_tombstone,
            data: self.data.clone(),
        }
    }
}

/// The pairs of a list as mathematical values.
pub open spec fn pairs_view(pairs: Seq<(&str, FieldValue)>) -> Fields {
    pairs.map_values(|p: (&str, FieldValue)| (p.0@, p.1@))
}

/// The records of a list as mathematical values.
pub open spec fn records_view(records: Seq<Record>) -> Seq<RecordModel> {
    records.map_values(|r: Record| r@)
}

impl Record {
    /// A live record.
    pub fn new(id: &str, seqno: u64, data: FieldMap) -> (r: Record)
        ensures
            r@ == (RecordModel { id: id@, seqno, is_tombstone: false, data: data@ }),
    {
        Record { id: id.to_owned(), seqno, is_tombstone: false, data }
    }

    /// A tombstone: the record that marks `id` as deleted.
    pub fn new_tombstone(id: &str, seqno: u64) -> (r: Record)
        ensures
            r@ == (RecordModel { id: id@, seqno, is_tombstone: true, data: Seq::empty() }),
    {
        Record { id: id.to_owned(), seqno, is_tombstone: true, data: FieldMap::new() }
    }

    /// A live record whose fields are given as pairs of name and value. Of
    /// two pairs with one name the later stays.
    pub fn from_pairs(id: &str, seqno: u64, pairs: Vec<(&str, FieldValue)>) -> (r: Record)
        ensures
            r@ == (RecordModel {
                id: id@,
                seqno,
                is_tombstone: false,
                data: fields_from_pairs(pairs_view(pairs@)),
            }),
    {
        let mut data = FieldMap::new();
        let mut i: usize = 0;
        let ghost all = pairs_view(pairs@);
        proof {
            assert(all.take(0) =~= Seq::<(Seq<char>, FieldModel)>::empty());
        }
        while i < pairs.len()
            invariant
                0 <= i <= pairs@.len(),
                all == pairs_view(pairs@),
                data@ == fields_from_pairs(all.take(i as int)),
            decreases pairs@.len() - i,
        {
            let value = pairs[i].1.clone();
            data.insert(pairs[i].0, value);
            proof {
                let next = all.take(i + 1);
                assert(next.drop_last() =~= all.take(i as int));
                assert(next.last() == all[i as int]);
            }
            i += 1;
        }
        proof {
            assert(all.take(i as int) =~= all);
        }
        Record::new(id, seqno, data)
    }

    /// Whether the record is a tombstone.
    pub fn is_deleted(&self) -> (r: bool)
        ensures
            r == self@.is_tombstone,
    {
        self.is_tombstone
    }

    /// The value of the field `name`, if the record has it.
    pub fn get(&self, name: &str) -> (r: Option<&FieldValue>)
        ensures
            match r {
                Some(v) => field_of(self@.data, name@) == Some(v@),
                None => field_of(self@.data, name@) is None,
            },
    {
        self.data.get(name)
    }

    /// The bytes of the record.
    pub fn encode(&self) -> (bytes: Vec<u8>)
        ensures
            bytes@ == enc_record(self@),
            record_valid(self@),
    {
        let mut out: Vec<u8> = Vec::new();
        put_record(&mut out, self);
        proof {
            assert(out@ =~= enc_record(self@));
        }
        out
    }

    /// The record whose bytes these are. Bytes that are no record's are
    /// refused as corrupt.
    pub fn decode(bytes: &[u8]) -> (r: Result<Record, Error>)
        ensures
            match r {
                Ok(rec) => record_valid(rec@) && enc_record(rec@) == bytes@,
                Err(e) => e == Error::Corrupt && forall|m: RecordModel|
                    record_valid(m) ==> enc_record(m) != bytes@,
            },
    {
        proof {
            assert(bytes@.skip(0) =~= bytes@);
            assert forall|m: RecordModel| record_valid(m) && enc_record(m)
                == bytes@ implies parse_record(bytes@) == Some((m, Seq::<u8>::empty())) by {
                lemma_parse_enc_record(m, Seq::<u8>::empty());
                assert(enc_record(m) + Seq::<u8>::empty() =~= enc_record(m));
            }
        }
        match take_record(bytes, 0) {
            Some((rec, end)) => {
                if end == bytes.len() {
                    proof {
                        lemma_enc_parse_record(bytes@);
                        assert(bytes@.skip(end as int) =~= Seq::<u8>::empty());
                        assert(enc_record(rec@) + Seq::<u8>::empty() =~= enc_record(rec@));
                    }
                    Ok(rec)
                } else {
                    proof {
                        assert(bytes@.skip(end as int).len() > 0);
                    }
                    Err(Error::Corrupt)
                }
            },
            None => Err(Error::Corrupt),
        }
    }
}

// ------------------------------------------------------------ a record, as bytes

/// A record that can be stored.
pub open spec fn record_valid(r: RecordModel) -> bool {
    str_fits(r.id) && fields_valid(r.data)
}

/// A record is written as its id, its seqno, its tombstone flag and its
/// fields, in this order.
pub open spec fn enc_record(r: RecordModel) -> Seq<u8> {
    enc_str(r.id) + enc_u64(r.seqno) + enc_bool(r.is_tombstone) + enc_fields(r.data)
}

/// Reads a record off the front of a byte string and gives back what follows it.
pub open spec fn parse_record(s: Seq<u8>) -> Option<(RecordModel, Seq<u8>)> {
    match parse_str(s) {
        None => None,
        Some((id, s1)) => match parse_u64(s1) {
            None => None,
            Some((seqno, s2)) => match parse_bool(s2) {
                None => None,
                Some((is_tombstone, s3)) => match parse_fields(s3) {
                    None => None,
                    Some((data, rest)) => Some(
                        (RecordModel { id, seqno, is_tombstone, data }, rest),
                    ),
                },
            },
        },
    }
}

/// Reading the bytes of a record gives the record back, whatever follows.
pub proof fn lemma_parse_enc_record(r: RecordModel, rest: Seq<u8>)
    requires
        record_valid(r),
    ensures
        parse_record(enc_record(r) + rest) == Some((r, rest)),
{
    let s3 = enc_fields(r.data) + rest;
    let s2 = enc_bool(r.is_tombstone) + s3;
    let s1 = enc_u64(r.seqno) + s2;
    assert(enc_record(r) + rest =~= enc_str(r.id) + s1);
    lemma_parse_enc_str(r.id, s1);
    lemma_parse_enc_u64(r.seqno, s2);
    lemma_parse_enc_bool(r.is_tombstone, s3);
    lemma_parse_enc_fields(r.data, rest);
}

/// What was read as a record is a record that can be stored, and the bytes
/// read are its bytes.
pub proof fn lemma_enc_parse_record(s: Seq<u8>)
    requires
        parse_record(s) is Some,
    ensures
        record_valid((parse_record(s)->0).0),
        s == enc_record((parse_record(s)->0).0) + (parse_record(s)->0).1,
{
    lemma_enc_parse_str(s);
    let (id, s1) = parse_str(s)->0;
    lemma_enc_parse_u64(s1);
    let (seqno, s2) = parse_u64(s1)->0;
    lemma_enc_parse_bool(s2);
    let (is_tombstone, s3) = parse_bool(s2)->0;
    lemma_enc_parse_fields(s3);
    let (data, rest) = parse_fields(s3)->0;
    assert(s =~= enc_record(RecordModel { id, seqno, is_tombstone, data }) + rest);
}

/// A record survives being written and read: all its fields come back.
pub proof fn lemma_record_roundtrip(r: RecordModel)
    requires
        record_valid(r),
    ensures
        parse_record(enc_record(r)) == Some((r, Seq::<u8>::empty())),
{
    lemma_parse_enc_record(r, Seq::<u8>::empty());
    assert(enc_record(r) + Seq::<u8>::empty() =~= enc_record(r));
}

/// Appends the bytes of a record.
pub fn put_record(out: &mut Vec<u8>, record: &Record)
    ensures
        final(out)@ == old(out)@ + enc_record(record@),
        record_valid(record@),
{
    put_str(out, record.id.as_str());
    put_u64(out, record.seqno);
    put_bool(out, record.is_tombstone);
    put_fields(out, &record.data);
    proof {
        assert(out@ =~= old(out)@ + enc_record(record@));
    }
}

/// Reads a record at `at`.
pub fn take_record(b: &[u8], at: usize) -> (r: Option<(Record, usize)>)
    requires
        at <= b@.len(),
    ensures
        match r {
            Some((rec, end)) => at <= end <= b@.len() && parse_record(b@.skip(at as int))
                == Some((rec@, b@.skip(end as int))),
            None => parse_record(b@.skip(at as int)) is None,
        },
{
    let (id, pos1) = match take_str(b, at) {
        Some(p) => p,
        None => { return None; },
    };
    let (seqno, pos2) = match take_u64(b, pos1) {
        Some(p) => p,
        None => { return None; },
    };
    let (is_tombstone, pos3) = match take_bool(b, pos2) {
        Some(p) => p,
        None => { return None; },
    };
    let (data, end) = match take_fields(b, pos3) {
        Some(p) => p,
        None => { return None; },
    };
    Some((Record { id, seqno, is_tombstone, data }, end))
}

// ------------------------------------------------------ a list of records

/// `enc_record` as a function value.
pub open spec fn record_encoder() -> spec_fn(RecordModel) -> Seq<u8> {
    |r: RecordModel| enc_record(r)
}

/// `parse_record` as a function value.
pub open spec fn record_parser() -> spec_fn(Seq<u8>) -> Option<(RecordModel, Seq<u8>)> {
    |s: Seq<u8>| parse_record(s)
}

/// `record_valid` as a function value.
pub open spec fn record_validity() -> spec_fn(RecordModel) -> bool {
    |r: RecordModel| record_valid(r)
}

/// Every record of the list can be stored, and their number can be written.
pub open spec fn records_valid(rs: Seq<RecordModel>) -> bool {
    &&& rs.len() <= u64::MAX
    &&& forall|i: int| 0 <= i < rs.len() ==> record_valid(#[trigger] rs[i])
}

/// A list of records is written as their number, a `u64`, then each record.
pub open spec fn enc_records(rs: Seq<RecordModel>) -> Seq<u8> {
    enc_u64(rs.len() as u64) + enc_items(rs, record_encoder())
}

/// Reads a list of records off the front of a byte string and gives back what follows it.
pub open spec fn parse_records(s: Seq<u8>) -> Option<(Seq<RecordModel>, Seq<u8>)> {
    match parse_u64(s) {
        None => None,
        Some((n, rest)) => parse_items(rest, n as nat, record_parser()),
    }
}

/// Reading the bytes of a list of records gives it back, whatever follows.
pub proof fn lemma_parse_enc_records(rs: Seq<RecordModel>, rest: Seq<u8>)
    requires
        records_valid(rs),
    ensures
        parse_records(enc_records(rs) + rest) == Some((rs, rest)),
{
    let body = enc_items(rs, record_encoder());
    assert(enc_records(rs) + rest =~= enc_u64(rs.len() as u64) + (body + rest));
    lemma_parse_enc_u64(rs.len() as u64, body + rest);
    assert forall|i: int, r: Seq<u8>| 0 <= i < rs.len() implies #[trigger] record_parser()(
        record_encoder()(rs[i]) + r,
    ) == Some((rs[i], r)) by {
        assert(record_encoder()(rs[i]) == enc_record(rs[i]));
        lemma_parse_enc_record(rs[i], r);
    }
    lemma_parse_enc_items(rs, record_encoder(), record_parser(), rest);
}

proof fn lemma_record_parser_sound()
    ensures
        forall|b: Seq<u8>| #[trigger]
            record_parser()(b) is Some ==> record_validity()((record_parser()(b)->0).0) && b
                == record_encoder()((record_parser()(b)->0).0) + (record_parser()(b)->0).1,
{
    assert forall|b: Seq<u8>| #[trigger] record_parser()(b) is Some implies record_validity()(
        (record_parser()(b)->0).0,
    ) && b == record_encoder()((record_parser()(b)->0).0) + (record_parser()(b)->0).1 by {
        assert(record_parser()(b) == parse_record(b));
        lemma_enc_parse_record(b);
    }
}

/// What was read as a list of records stands written at the front.
pub proof fn lemma_enc_parse_records(s: Seq<u8>)
    requires
        parse_records(s) is Some,
    ensures
        records_valid((parse_records(s)->0).0),
        s == enc_records((parse_records(s)->0).0) + (parse_records(s)->0).1,
{
    lemma_enc_parse_u64(s);
    let (n, rest) = parse_u64(s)->0;
    lemma_record_parser_sound();
    lemma_enc_parse_items(rest, n as nat, record_encoder(), record_parser(), record_validity());
    let (rs, after) = parse_items(rest, n as nat, record_parser())->0;
    assert forall|i: int| 0 <= i < rs.len() implies record_valid(#[trigger] rs[i]) by {
        assert(record_validity()(rs[i]));
    }
    assert(s =~= enc_records(rs) + after);
}

/// Appends the bytes of a list of records.
pub fn put_records(out: &mut Vec<u8>, records: &Vec<Record>)
    ensures
        final(out)@ == old(out)@ + enc_records(records_view(records@)),
        records_valid(records_view(records@)),
{
    let n = records.len();
    let ghost all = records_view(records@);
    put_u64(out, n as u64);
    let mut i: usize = 0;
    proof {
        assert(all.take(0) =~= Seq::<RecordModel>::empty());
        assert(out@ =~= old(out)@ + enc_u64(n as u64) + enc_items(all.take(0), record_encoder()));
    }
    while i < n
        invariant
            0 <= i <= n,
            n == records@.len(),
            all == records_view(records@),
            out@ == old(out)@ + enc_u64(n as u64) + enc_items(
                all.take(i as int),
                record_encoder(),
            ),
            forall|j: int| 0 <= j < i ==> record_valid(#[trigger] all[j]),
        decreases n - i,
    {
        let ghost before = out@;
        put_record(out, &records[i]);
        proof {
            lemma_enc_items_push(all.take(i as int), all[i as int], record_encoder());
            assert(all.take(i + 1) =~= all.take(i as int).push(all[i as int]));
            assert(record_encoder()(all[i as int]) == enc_record(all[i as int]));
            assert(out@ =~= old(out)@ + enc_u64(n as u64) + enc_items(
                all.take(i + 1),
                record_encoder(),
            ));
        }
        i += 1;
    }
    proof {
        assert(all.take(n as int) =~= all);
        assert(out@ =~= old(out)@ + enc_records(all));
    }
}

/// Reads a list of records at `at`.
#[verifier::loop_isolation(false)]
pub fn take_records(b: &[u8], at: usize) -> (r: Option<(Vec<Record>, usize)>)
    requires
        at <= b@.len(),
    ensures
        match r {
            Some((rs, end)) => at <= end <= b@.len() && parse_records(b@.skip(at as int))
                == Some((records_view(rs@), b@.skip(end as int))),
            None => parse_records(b@.skip(at as int)) is None,
        },
{
    let (n, start) = match take_u64(b, at) {
        Some(p) => p,
        None => { return None; },
    };
    let ghost s0 = b@.skip(start as int);
    let mut records: Vec<Record> = Vec::new();
    let mut pos: usize = start;
    let mut i: u64 = 0;
    proof {
        assert(records_view(records@) =~= Seq::<RecordModel>::empty());
    }
    while i < n
        invariant
            0 <= i <= n,
            start <= pos <= b@.len(),
            records@.len() == i,
            parse_items(s0, i as nat, record_parser()) == Some(
                (records_view(records@), b@.skip(pos as int)),
            ),
        decreases n - i,
    {
        proof {
            lemma_parse_items_step(s0, i as nat, record_parser());
            assert(record_parser()(b@.skip(pos as int)) == parse_record(b@.skip(pos as int)));
        }
        let (rec, end) = match take_record(b, pos) {
            Some(p) => p,
            None => {
                proof {
                    lemma_parse_items_none(s0, (i + 1) as nat, n as nat, record_parser());
                }
                return None;
            },
        };
        let ghost prev = records@;
        records.push(rec);
        proof {
            assert(records_view(records@) =~= records_view(prev).push(rec@));
        }
        pos = end;
        i += 1;
    }
    Some((records, pos))
}

} // verus!
