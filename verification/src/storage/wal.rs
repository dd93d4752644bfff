//! The write-ahead log.
//!
//! The log is a string of frames. A frame is the length of a payload as a
//! `u64`, the payload, and the length once more; the payload is one entry.
//! The type `Wal` holds the bytes of the log; whoever owns the file writes
//! what `append` adds and what `rewrite_to` leaves.

pub mod laws;
pub mod replay;

use vstd::prelude::*;
use vstd::slice::slice_subrange;
use crate::codec::{
    append_bytes, enc_str, enc_u32, enc_u64, enc_u8, lemma_enc_parse_str, lemma_enc_parse_u32,
    lemma_enc_parse_u64, lemma_enc_parse_u8, lemma_parse_enc_str, lemma_parse_enc_u32,
    lemma_parse_enc_u64, lemma_parse_enc_u8, parse_str, parse_u32, parse_u64, parse_u8, put_str,
    put_u32, put_u64, put_u8, str_fits, take_str, take_u32, take_u64, take_u8,
};
use crate::error::Error;
use crate::storage::record::{
    enc_record, lemma_enc_parse_record, lemma_parse_enc_record, parse_record, put_record,
    record_valid, take_record, Record, RecordModel,
};

verus! {

/// What an entry of the log records.
#[derive(Debug, Clone, Copy, PartialEq, Eq, Structural)]
pub enum WalOp {
    Insert,
    Update,
    Delete,
}

/// An entry as a mathematical value.
pub struct WalEntryModel {
    pub seqno: u64,
    pub op: WalOp,
    pub table: Seq<char>,
    pub record_id: Seq<char>,
    pub record: Option<RecordModel>,
}

/// One entry of the log. A delete carries the tombstone.
#[derive(Debug, PartialEq, Eq)]
pub struct WalEntry {
    pub seqno: u64,
    pub op: WalOp,
    pub table: String,
    pub record_id: String,
    pub record: Option<Record>,
}

impl View for WalEntry {
    type V = WalEntryModel;

    open spec fn view(&self) -> WalEntryModel {
        WalEntryModel {
            seqno: self.seqno,
            op: self.op,
            table: self.table@,
            record_id: self.record_id@,
            record: match self.record {
                Some(r) => Some(r@),
                None => None,
            },
        }
    }
}

impl Clone for WalEntry {
    fn clone(&self) -> (r: Self)
        ensures
            r@ == self@,
    {
        WalEntry {
            seqno: self.seqno,
            op: self.op,
            table: self.table.clone(),
            record_id: self.record_id.clone(),
            record: match &self.record {
                Some(r) => Some(r.clone()),
                None => None,
            },
        }
    }
}

/// The entries of a list as mathematical values.
pub open spec fn entries_view(entries: Seq<WalEntry>) -> Seq<WalEntryModel> {
    entries.map_values(|e: WalEntry| e@)
}

// ------------------------------------------------------------ an entry, as bytes

/// The number under which an operation is written.
pub open spec fn op_tag(op: WalOp) -> u32 {
    match op {
        WalOp::Insert => 0,
        WalOp::Update => 1,
        WalOp::Delete => 2,
    }
}

/// An entry that can be stored.
pub open spec fn entry_valid(e: WalEntryModel) -> bool {
    &&& str_fits(e.table)
    &&& str_fits(e.record_id)
    &&& e.record matches Some(r) ==> record_valid(r)
}

/// The bytes of a record that may be missing.
pub open spec fn enc_opt_record(r: Option<RecordModel>) -> Seq<u8> {
    match r {
        None => enc_u8(0),
        Some(rec) => enc_u8(1) + enc_record(rec),
    }
}

/// An entry is written as its seqno, the number of its operation as a `u32`,
/// the table, the record id, and the record behind a byte that says whether
/// there is one.
pub open spec fn enc_wal_entry(e: WalEntryModel) -> Seq<u8> {
    enc_u64(e.seqno) + enc_u32(op_tag(e.op)) + enc_str(e.table) + enc_str(e.record_id)
        + enc_opt_record(e.record)
}

/// Reads an operation off the front of a byte string and gives back what follows it.
pub open spec fn parse_op(s: Seq<u8>) -> Option<(WalOp, Seq<u8>)> {
    match parse_u32(s) {
        None => None,
        Some((tag, rest)) => if tag == 0 {
            Some((WalOp::Insert, rest))
        } else if tag == 1 {
            Some((WalOp::Update, rest))
        } else if tag == 2 {
            Some((WalOp::Delete, rest))
        } else {
            None
        },
    }
}

/// Reads a record that may be missing off the front of a byte string and gives back what follows it.
pub open spec fn parse_opt_record(s: Seq<u8>) -> Option<(Option<RecordModel>, Seq<u8>)> {
    match parse_u8(s) {
        None => None,
        Some((tag, rest)) => if tag == 0 {
            Some((None, rest))
        } else if tag == 1 {
            match parse_record(rest) {
                None => None,
                Some((r, after)) => Some((Some(r), after)),
            }
        } else {
            None
        },
    }
}

/// Reads an entry of the log off the front of a byte string and gives back what follows it.
pub open spec fn parse_wal_entry(s: Seq<u8>) -> Option<(WalEntryModel, Seq<u8>)> {
    match parse_u64(s) {
        None => None,
        Some((seqno, s1)) => match parse_op(s1) {
            None => None,
            Some((op, s2)) => match parse_str(s2) {
                None => None,
                Some((table, s3)) => match parse_str(s3) {
                    None => None,
                    Some((record_id, s4)) => match parse_opt_record(s4) {
                        None => None,
                        Some((record, rest)) => Some(
                            (WalEntryModel { seqno, op, table, record_id, record }, rest),
                        ),
                    },
                },
            },
        },
    }
}

/// The entry that the payload of a frame holds: the payload must be the
/// bytes of one entry and nothing more.
pub open spec fn decode_wal_entry(payload: Seq<u8>) -> Option<WalEntryModel> {
    match parse_wal_entry(payload) {
        Some((e, rest)) => if rest.len() == 0 {
            Some(e)
        } else {
            None
        },
        None => None,
    }
}

/// Reading the bytes of an operation gives it back, whatever follows.
pub proof fn lemma_parse_enc_op(op: WalOp, rest: Seq<u8>)
    ensures
        parse_op(enc_u32(op_tag(op)) + rest) == Some((op, rest)),
{
    lemma_parse_enc_u32(op_tag(op), rest);
}

/// What was read as an operation stands written at the front.
pub proof fn lemma_enc_parse_op(s: Seq<u8>)
    requires
        parse_op(s) is Some,
    ensures
        s == enc_u32(op_tag((parse_op(s)->0).0)) + (parse_op(s)->0).1,
{
    lemma_enc_parse_u32(s);
}

/// Reading the bytes of a record that may be missing gives it back, whatever follows.
pub proof fn lemma_parse_enc_opt_record(r: Option<RecordModel>, rest: Seq<u8>)
    requires
        r matches Some(rec) ==> record_valid(rec),
    ensures
        parse_opt_record(enc_opt_record(r) + rest) == Some((r, rest)),
{
    match r {
        None => {
            lemma_parse_enc_u8(0, rest);
        },
        Some(rec) => {
            assert(enc_opt_record(r) + rest =~= enc_u8(1) + (enc_record(rec) + rest));
            lemma_parse_enc_u8(1, enc_record(rec) + rest);
            lemma_parse_enc_record(rec, rest);
        },
    }
}

/// What was read as a record that may be missing stands written at the front.
pub proof fn lemma_enc_parse_opt_record(s: Seq<u8>)
    requires
        parse_opt_record(s) is Some,
    ensures
        (parse_opt_record(s)->0).0 matches Some(rec) ==> record_valid(rec),
        s == enc_opt_record((parse_opt_record(s)->0).0) + (parse_opt_record(s)->0).1,
{
    lemma_enc_parse_u8(s);
    let (tag, s5) = parse_u8(s)->0;
    let (record, rest) = parse_opt_record(s)->0;
    if tag == 1 {
        lemma_enc_parse_record(s5);
        let (rec, after) = parse_record(s5)->0;
        assert(s =~= enc_u8(1) + enc_record(rec) + after);
    }
}

/// Reading the bytes of an entry of the log gives it back, whatever follows.
pub proof fn lemma_parse_enc_wal_entry(e: WalEntryModel, rest: Seq<u8>)
    requires
        entry_valid(e),
    ensures
        parse_wal_entry(enc_wal_entry(e) + rest) == Some((e, rest)),
{
    let s4 = enc_opt_record(e.record) + rest;
    let s3 = enc_str(e.record_id) + s4;
    let s2 = enc_str(e.table) + s3;
    let s1 = enc_u32(op_tag(e.op)) + s2;
    assert(enc_wal_entry(e) + rest =~= enc_u64(e.seqno) + s1);
    lemma_parse_enc_u64(e.seqno, s1);
    lemma_parse_enc_op(e.op, s2);
    lemma_parse_enc_str(e.table, s3);
    lemma_parse_enc_str(e.record_id, s4);
    lemma_parse_enc_opt_record(e.record, rest);
}

/// What was read as an entry of the log stands written at the front.
pub proof fn lemma_enc_parse_wal_entry(s: Seq<u8>)
    requires
        parse_wal_entry(s) is Some,
    ensures
        entry_valid((parse_wal_entry(s)->0).0),
        s == enc_wal_entry((parse_wal_entry(s)->0).0) + (parse_wal_entry(s)->0).1,
{
    lemma_enc_parse_u64(s);
    let (seqno, s1) = parse_u64(s)->0;
    lemma_enc_parse_op(s1);
    let (op, s2) = parse_op(s1)->0;
    lemma_enc_parse_str(s2);
    let (table, s3) = parse_str(s2)->0;
    lemma_enc_parse_str(s3);
    let (record_id, s4) = parse_str(s3)->0;
    lemma_enc_parse_opt_record(s4);
    let (record, rest) = parse_opt_record(s4)->0;
    let e = WalEntryModel { seqno, op, table, record_id, record };
    assert(parse_wal_entry(s) == Some((e, rest)));
    let t4 = enc_opt_record(record) + rest;
    let t3 = enc_str(record_id) + t4;
    let t2 = enc_str(table) + t3;
    let t1 = enc_u32(op_tag(op)) + t2;
    assert(s4 == t4);
    assert(s3 == t3);
    assert(s2 == t2);
    assert(s1 == t1);
    assert(s == enc_u64(seqno) + t1);
    let a = enc_u64(seqno);
    let b = enc_u32(op_tag(op));
    let c = enc_str(table);
    let d = enc_str(record_id);
    let f = enc_opt_record(record);
    crate::codec::lemma_concat_assoc(a + b + c + d, f, rest);
    crate::codec::lemma_concat_assoc(a + b + c, d, t4);
    crate::codec::lemma_concat_assoc(a + b, c, t3);
    crate::codec::lemma_concat_assoc(a, b, t2);
}

/// An entry survives being written and read, and only the bytes of an
/// entry are read as one.
pub proof fn lemma_decode_wal_entry(payload: Seq<u8>)
    ensures
        match decode_wal_entry(payload) {
            Some(e) => entry_valid(e) && enc_wal_entry(e) == payload,
            None => forall|e: WalEntryModel| entry_valid(e) ==> enc_wal_entry(e) != payload,
        },
{
    assert forall|e: WalEntryModel| entry_valid(e) && enc_wal_entry(e)
        == payload implies decode_wal_entry(payload) == Some(e) by {
        lemma_parse_enc_wal_entry(e, Seq::empty());
        assert(enc_wal_entry(e) + Seq::<u8>::empty() =~= enc_wal_entry(e));
    }
    if parse_wal_entry(payload) is Some {
        lemma_enc_parse_wal_entry(payload);
        let (e, rest) = parse_wal_entry(payload)->0;
        if rest.len() == 0 {
            assert(enc_wal_entry(e) + rest =~= enc_wal_entry(e));
        }
    }
}

impl WalEntry {
    /// An entry.
    pub fn new(op: WalOp, table: &str, record_id: &str, seqno: u64, record: Option<Record>) -> (e:
        Self)
        ensures
            e@ == (WalEntryModel {
                seqno,
                op,
                table: table@,
                record_id: record_id@,
                record: match record {
                    Some(r) => Some(r@),
                    None => None,
                },
            }),
    {
        WalEntry { seqno, op, table: table.to_owned(), record_id: record_id.to_owned(), record }
    }

    /// The bytes of the entry.
    pub fn encode(&self) -> (bytes: Vec<u8>)
        ensures
            bytes@ == enc_wal_entry(self@),
            entry_valid(self@),
    {
        let mut out: Vec<u8> = Vec::new();
        put_u64(&mut out, self.seqno);
        let tag: u32 = match self.op {
            WalOp::Insert => 0,
            WalOp::Update => 1,
            WalOp::Delete => 2,
        };
        put_u32(&mut out, tag);
        put_str(&mut out, self.table.as_str());
        put_str(&mut out, self.record_id.as_str());
        match &self.record {
            None => {
                put_u8(&mut out, 0);
            },
            Some(r) => {
                put_u8(&mut out, 1);
                put_record(&mut out, r);
            },
        }
        proof {
            assert(out@ =~= enc_wal_entry(self@));
        }
        out
    }

    /// The entry whose bytes these are; bytes that are no entry's are
    /// refused as corrupt.
    pub fn decode(bytes: &[u8]) -> (r: Result<WalEntry, Error>)
        ensures
            match r {
                Ok(e) => decode_wal_entry(bytes@) == Some(e@),
                Err(err) => err == Error::Corrupt && decode_wal_entry(bytes@) is None,
            },
    {
        proof {
            assert(bytes@.skip(0) =~= bytes@);
        }
        let (seqno, pos1) = match take_u64(bytes, 0) {
            Some(p) => p,
            None => { return Err(Error::Corrupt); },
        };
        let (tag, pos2) = match take_u32(bytes, pos1) {
            Some(p) => p,
            None => { return Err(Error::Corrupt); },
        };
        let op = if tag == 0 {
            WalOp::Insert
        } else if tag == 1 {
            WalOp::Update
        } else if tag == 2 {
            WalOp::Delete
        } else {
            return Err(Error::Corrupt);
        };
        let (table, pos3) = match take_str(bytes, pos2) {
            Some(p) => p,
            None => { return Err(Error::Corrupt); },
        };
        let (record_id, pos4) = match take_str(bytes, pos3) {
            Some(p) => p,
            None => { return Err(Error::Corrupt); },
        };
        let (flag, pos5) = match take_u8(bytes, pos4) {
            Some(p) => p,
            None => { return Err(Error::Corrupt); },
        };
        let (record, end) = if flag == 0 {
            (None, pos5)
        } else if flag == 1 {
            match take_record(bytes, pos5) {
                Some((r, e)) => (Some(r), e),
                None => { return Err(Error::Corrupt); },
            }
        } else {
            return Err(Error::Corrupt);
        };
        if end != bytes.len() {
            return Err(Error::Corrupt);
        }
        Ok(WalEntry { seqno, op, table, record_id, record })
    }

    /// The frame of the entry: what `append` adds to the log.
    pub fn frame(&self) -> (bytes: Vec<u8>)
        ensures
            bytes@ == enc_frame(enc_wal_entry(self@)),
            entry_valid(self@),
    {
        let payload = self.encode();
        let mut out: Vec<u8> = Vec::new();
        put_frame(&mut out, payload.as_slice());
        proof {
            assert(out@ =~= enc_frame(enc_wal_entry(self@)));
        }
        out
    }
}

// ---------------------------------------------------------------------- frames

/// A frame: the length of the payload, the payload, the length again.
pub open spec fn enc_frame(payload: Seq<u8>) -> Seq<u8> {
    enc_u64(payload.len() as u64) + payload + enc_u64(payload.len() as u64)
}

/// What stands at the front of a byte string that is read as a log.
pub enum FrameScan {
    /// Nothing: the log ends here.
    End,
    /// The beginning of a frame that is not whole: too few bytes for a
    /// length, for the payload or for the second length.
    Torn,
    /// A frame whose two lengths differ.
    Mismatch,
    /// A frame, and what follows it.
    Frame { payload: Seq<u8>, after: Seq<u8> },
}

/// Reads what stands at the front of `s`.
pub open spec fn scan_frame(s: Seq<u8>) -> FrameScan {
    if s.len() == 0 {
        FrameScan::End
    } else {
        match parse_u64(s) {
            None => FrameScan::Torn,
            Some((n, rest)) => if rest.len() < n {
                FrameScan::Torn
            } else {
                match parse_u64(rest.skip(n as int)) {
                    None => FrameScan::Torn,
                    Some((m, after)) => if m == n {
                        FrameScan::Frame { payload: rest.subrange(0, n as int), after }
                    } else {
                        FrameScan::Mismatch
                    },
                }
            },
        }
    }
}

/// A frame at the front is read as that frame, whatever follows.
pub proof fn lemma_scan_enc_frame(payload: Seq<u8>, rest: Seq<u8>)
    requires
        payload.len() <= u64::MAX,
    ensures
        scan_frame(enc_frame(payload) + rest) == (FrameScan::Frame { payload, after: rest }),
        enc_frame(payload).len() == payload.len() + 16,
{
    let n = payload.len() as u64;
    let s1 = payload + enc_u64(n) + rest;
    assert(enc_frame(payload) + rest =~= enc_u64(n) + s1);
    lemma_parse_enc_u64(n, s1);
    assert(s1.skip(n as int) =~= enc_u64(n) + rest);
    assert(s1.subrange(0, n as int) =~= payload);
    lemma_parse_enc_u64(n, rest);
}

/// What was read as a frame is a frame: the bytes read are the frame of the
/// payload, and what follows is shorter than what was there.
pub proof fn lemma_enc_scan_frame(s: Seq<u8>)
    requires
        scan_frame(s) is Frame,
    ensures
        s == enc_frame(scan_frame(s)->payload) + scan_frame(s)->after,
        scan_frame(s)->payload.len() <= u64::MAX,
        scan_frame(s)->after.len() == s.len() - scan_frame(s)->payload.len() - 16,
{
    lemma_enc_parse_u64(s);
    let (n, rest) = parse_u64(s)->0;
    lemma_enc_parse_u64(rest.skip(n as int));
    let (m, after) = parse_u64(rest.skip(n as int))->0;
    let payload = rest.subrange(0, n as int);
    lemma_parse_enc_u64(n, Seq::empty());
    assert(rest =~= payload + rest.skip(n as int));
    assert(s =~= enc_frame(payload) + after);
}

/// Appends the frame of a payload.
pub fn put_frame(out: &mut Vec<u8>, payload: &[u8])
    ensures
        final(out)@ == old(out)@ + enc_frame(payload@),
{
    let n = payload.len() as u64;
    put_u64(out, n);
    append_bytes(out, payload);
    put_u64(out, n);
    proof {
        assert(out@ =~= old(out)@ + enc_frame(payload@));
    }
}

/// What stands at a position of the log, by positions.
pub enum ScanStep {
    End,
    Torn,
    Mismatch,
    /// A frame whose payload runs from `start` to `end`; the next frame
    /// begins at `next`.
    Frame { start: usize, end: usize, next: usize },
}

/// Reads what stands at `at`.
pub fn scan_at(b: &[u8], at: usize) -> (r: ScanStep)
    requires
        at <= b@.len(),
    ensures
        match r {
            ScanStep::End => scan_frame(b@.skip(at as int)) is End,
            ScanStep::Torn => scan_frame(b@.skip(at as int)) is Torn,
            ScanStep::Mismatch => scan_frame(b@.skip(at as int)) is Mismatch,
            ScanStep::Frame { start, end, next } => at < start <= end < next <= b@.len()
                && start == at + 8 && next == end + 8 && scan_frame(b@.skip(at as int)) == (
            FrameScan::Frame {
                payload: b@.subrange(start as int, end as int),
                after: b@.skip(next as int),
            }),
        },
{
    if at == b.len() {
        return ScanStep::End;
    }
    let (n, start) = match take_u64(b, at) {
        Some(p) => p,
        None => { return ScanStep::Torn; },
    };
    if n > (b.len() - start) as u64 {
        return ScanStep::Torn;
    }
    let end = start + n as usize;
    proof {
        assert(b@.skip(start as int).skip(n as int) =~= b@.skip(end as int));
        assert(b@.skip(start as int).subrange(0, n as int) =~= b@.subrange(
            start as int,
            end as int,
        ));
    }
    let (m, next) = match take_u64(b, end) {
        Some(p) => p,
        None => { return ScanStep::Torn; },
    };
    if m != n {
        return ScanStep::Mismatch;
    }
    ScanStep::Frame { start, end, next }
}

// ------------------------------------------------------------------ the log

/// The entries of a log, as `read_all` gives them: the entries of the frames
/// from the start up to the first place where no whole frame with two equal
/// lengths stands. A frame whose payload is not an entry makes the log
/// corrupt.
pub open spec fn read_entries(s: Seq<u8>) -> Result<Seq<WalEntryModel>, Error>
    decreases s.len(),
{
    match scan_frame(s) {
        FrameScan::Frame { payload, after } => {
            if after.len() < s.len() {
                match decode_wal_entry(payload) {
                    None => Err(Error::Corrupt),
                    Some(e) => match read_entries(after) {
                        Err(err) => Err(err),
                        Ok(es) => Ok(seq![e] + es),
                    },
                }
            } else {
                Ok(Seq::empty())
            }
        },
        _ => Ok(Seq::empty()),
    }
}

/// The bytes that `rewrite_to` leaves: the frames of the entries with a
/// seqno above the checkpoint, byte for byte and in their order. A torn
/// frame at the end is dropped. A frame whose two lengths differ, or whose
/// payload is not an entry, makes the log corrupt.
pub open spec fn rewrite_bytes(s: Seq<u8>, checkpoint: u64) -> Result<Seq<u8>, Error>
    decreases s.len(),
{
    match scan_frame(s) {
        FrameScan::Frame { payload, after } => {
            if after.len() < s.len() {
                match decode_wal_entry(payload) {
                    None => Err(Error::Corrupt),
                    Some(e) => match rewrite_bytes(after, checkpoint) {
                        Err(err) => Err(err),
                        Ok(rest) => if e.seqno > checkpoint {
                            Ok(enc_frame(payload) + rest)
                        } else {
                            Ok(rest)
                        },
                    },
                }
            } else {
                Ok(Seq::empty())
            }
        },
        FrameScan::Mismatch => Err(Error::Corrupt),
        _ => Ok(Seq::empty()),
    }
}

/// The entries with a seqno above the checkpoint.
pub open spec fn entries_above(es: Seq<WalEntryModel>, checkpoint: u64) -> Seq<WalEntryModel>
    decreases es.len(),
{
    if es.len() == 0 {
        Seq::empty()
    } else if es[0].seqno > checkpoint {
        seq![es[0]] + entries_above(es.drop_first(), checkpoint)
    } else {
        entries_above(es.drop_first(), checkpoint)
    }
}

/// The frames of the entries, one after the other.
pub open spec fn enc_log(es: Seq<WalEntryModel>) -> Seq<u8>
    decreases es.len(),
{
    if es.len() == 0 {
        Seq::empty()
    } else {
        enc_frame(enc_wal_entry(es[0])) + enc_log(es.drop_first())
    }
}

/// Every entry can be stored and is short enough to be framed.
pub open spec fn log_valid(es: Seq<WalEntryModel>) -> bool {
    forall|i: int|
        0 <= i < es.len() ==> entry_valid(#[trigger] es[i]) && enc_wal_entry(es[i]).len()
            <= u64::MAX
}

/// `es` joined to the entries that `r` holds.
pub open spec fn entries_then(es: Seq<WalEntryModel>, r: Result<Seq<WalEntryModel>, Error>)
    -> Result<Seq<WalEntryModel>, Error> {
    match r {
        Ok(more) => Ok(es + more),
        Err(e) => Err(e),
    }
}

/// `out` joined to the bytes that `r` holds.
pub open spec fn bytes_then(out: Seq<u8>, r: Result<Seq<u8>, Error>) -> Result<Seq<u8>, Error> {
    match r {
        Ok(more) => Ok(out + more),
        Err(e) => Err(e),
    }
}

/// The bytes of the log.
#[derive(Debug, PartialEq, Eq)]
pub struct Wal {
    bytes: Vec<u8>,
}

impl View for Wal {
    type V = Seq<u8>;

    closed spec fn view(&self) -> Seq<u8> {
        self.bytes@
    }
}

impl Wal {
    /// An empty log.
    pub fn new() -> (w: Self)
        ensures
            w@ == Seq::<u8>::empty(),
    {
        Wal { bytes: Vec::new() }
    }

    /// The log that a file with these bytes holds.
    pub fn from_bytes(bytes: Vec<u8>) -> (w: Self)
        ensures
            w@ == bytes@,
    {
        Wal { bytes }
    }

    /// The bytes of the log.
    pub fn as_bytes(&self) -> (b: &Vec<u8>)
        ensures
            b@ == self@,
    {
        &self.bytes
    }

    /// Adds the frame of an entry at the end of the log.
    pub fn append(&mut self, entry: &WalEntry)
        ensures
            final(self)@ == old(self)@ + enc_frame(enc_wal_entry(entry@)),
            entry_valid(entry@),
    {
        let payload = entry.encode();
        put_frame(&mut self.bytes, payload.as_slice());
    }

    /// The entries of the log in their order. A torn or mismatched frame
    /// ends the log without an error; a whole frame that holds no entry is
    /// corrupt.
    pub fn read_all(&self) -> (r: Result<Vec<WalEntry>, Error>)
        ensures
            match r {
                Ok(es) => read_entries(self@) == Ok::<Seq<WalEntryModel>, Error>(
                    entries_view(es@),
                ),
                Err(e) => read_entries(self@) == Err::<Seq<WalEntryModel>, Error>(e),
            },
    {
        let b = self.bytes.as_slice();
        let mut entries: Vec<WalEntry> = Vec::new();
        let mut pos: usize = 0;
        proof {
            assert(b@.skip(0) =~= b@);
            assert(entries_view(entries@) =~= Seq::<WalEntryModel>::empty());
            assert(Seq::<WalEntryModel>::empty() + read_entries(b@)->Ok_0 =~= read_entries(
                b@,
            )->Ok_0);
        }
        loop
            invariant
                0 <= pos <= b@.len(),
                b@ == self@,
                read_entries(b@) == entries_then(
                    entries_view(entries@),
                    read_entries(b@.skip(pos as int)),
                ),
            decreases b@.len() - pos,
        {
            match scan_at(b, pos) {
                ScanStep::Frame { start, end, next } => {
                    let payload = slice_subrange(b, start, end);
                    match WalEntry::decode(payload) {
                        Err(e) => {
                            return Err(e);
                        },
                        Ok(entry) => {
                            let ghost prev = entries_view(entries@);
                            let ghost more = read_entries(b@.skip(next as int));
                            entries.push(entry);
                            proof {
                                assert(entries_view(entries@) =~= prev.push(entry@));
                                if more is Ok {
                                    assert(prev + (seq![entry@] + more->Ok_0) =~= prev.push(
                                        entry@,
                                    ) + more->Ok_0);
                                }
                            }
                            pos = next;
                        },
                    }
                },
                _ => {
                    proof {
                        assert(entries_view(entries@) + Seq::<WalEntryModel>::empty()
                            =~= entries_view(entries@));
                    }
                    return Ok(entries);
                },
            }
        }
    }

    /// Leaves in the log the frames of the entries with a seqno above the
    /// checkpoint, byte for byte. Where the log is corrupt it stays as it
    /// is.
    pub fn rewrite_to(&mut self, checkpoint: u64) -> (r: Result<(), Error>)
        ensures
            match r {
                Ok(()) => rewrite_bytes(old(self)@, checkpoint) == Ok::<Seq<u8>, Error>(
                    final(self)@,
                ),
                Err(e) => rewrite_bytes(old(self)@, checkpoint) == Err::<Seq<u8>, Error>(e)
                    && final(self)@ == old(self)@,
            },
    {
        let mut out: Vec<u8> = Vec::new();
        let mut pos: usize = 0;
        let mut done = false;
        let b = self.bytes.as_slice();
        proof {
            assert(b@.skip(0) =~= b@);
            assert(Seq::<u8>::empty() + rewrite_bytes(b@, checkpoint)->Ok_0 =~= rewrite_bytes(
                b@,
                checkpoint,
            )->Ok_0);
        }
        while !done
            invariant
                0 <= pos <= b@.len(),
                b@ == old(self)@,
                self@ == old(self)@,
                rewrite_bytes(b@, checkpoint) == bytes_then(
                    out@,
                    rewrite_bytes(b@.skip(pos as int), checkpoint),
                ),
                done ==> rewrite_bytes(b@, checkpoint) == Ok::<Seq<u8>, Error>(out@),
            decreases b@.len() - pos + (if done { 0int } else { 1int }),
        {
            match scan_at(b, pos) {
                ScanStep::Frame { start, end, next } => {
                    let payload = slice_subrange(b, start, end);
                    match WalEntry::decode(payload) {
                        Err(e) => {
                            return Err(e);
                        },
                        Ok(entry) => {
                            let ghost more = rewrite_bytes(b@.skip(next as int), checkpoint);
                            let ghost before = out@;
                            if entry.seqno > checkpoint {
                                put_frame(&mut out, payload);
                            }
                            proof {
                                if more is Ok && entry.seqno > checkpoint {
                                    assert(before + (enc_frame(payload@) + more->Ok_0) =~= out@
                                        + more->Ok_0);
                                }
                            }
                            pos = next;
                        },
                    }
                },
                ScanStep::Mismatch => {
                    return Err(Error::Corrupt);
                },
                _ => {
                    proof {
                        assert(out@ + Seq::<u8>::empty() =~= out@);
                    }
                    done = true;
                },
            }
        }
        self.bytes = out;
        Ok(())
    }
}

} // verus!
