//! The write path: a write takes the next seqno, goes to the log, and only
//! then to the memtable.

use vstd::prelude::*;
use crate::engine::seqno::{allocate, SeqNo};
use crate::lsm::level::metas_view;
use crate::storage::fields::{FieldMap, Fields};
use crate::storage::flush::{
    build_pages, chunks, pages_for, pages_view, BuiltPages, MAX_PER_PAGE_SIZE,
    MAX_RECORDS_PER_PAGE,
};
use crate::storage::memtable::{put_position, MemTable};
use crate::storage::record::{Record, RecordModel};
use crate::storage::wal::{enc_frame, enc_wal_entry, entry_valid, Wal, WalEntry, WalEntryModel, WalOp};

verus! {

/// The entry that a put of `fields` under `id` with `seqno` writes.
pub open spec fn put_entry(id: Seq<char>, seqno: u64, fields: Fields) -> WalEntryModel {
    WalEntryModel {
        seqno,
        op: WalOp::Insert,
        table: Seq::empty(),
        record_id: id,
        record: Some(RecordModel { id, seqno, is_tombstone: false, data: fields }),
    }
}

/// The entry that a delete of `id` with `seqno` writes.
pub open spec fn delete_entry(id: Seq<char>, seqno: u64) -> WalEntryModel {
    WalEntryModel {
        seqno,
        op: WalOp::Delete,
        table: Seq::empty(),
        record_id: id,
        record: Some(RecordModel { id, seqno, is_tombstone: true, data: Seq::empty() }),
    }
}

/// The memtable after the record of the entry was put, if it has one.
pub open spec fn applied(mem: Seq<RecordModel>, e: WalEntryModel) -> Seq<RecordModel> {
    match e.record {
        Some(r) => mem.insert(put_position(mem, r.id), r),
        None => mem,
    }
}

/// The memtable is flushed when its records hold more than this many
/// bytes: 64 KiB.
pub const MEMTABLE_LIMIT_BYTES: usize = 65536;

/// Carries out writes.
#[derive(Debug, Clone, Copy, PartialEq, Eq, Structural)]
pub struct Writer;

impl Writer {
    /// A writer.
    pub fn new() -> (w: Self) {
        Writer
    }

    /// The first half of a put: takes the next seqno and makes the entry
    /// for the log. Nothing else changes.
    pub fn prepare_put(&self, seq: &mut SeqNo, id: &str, value: FieldMap) -> (e: WalEntry)
        requires
            old(seq)@ < u64::MAX,
        ensures
            final(seq)@ == old(seq)@ + 1,
            e@ == put_entry(id@, final(seq)@, value@),
    {
        let seqno = allocate(seq);
        let record = Record::new(id, seqno, value);
        proof {
            reveal_strlit("");
            assert(""@ =~= Seq::<char>::empty());
        }
        WalEntry::new(WalOp::Insert, "", id, seqno, Some(record))
    }

    /// The first half of a delete: takes the next seqno and makes the entry
    /// for the log, which carries the tombstone.
    pub fn prepare_delete(&self, seq: &mut SeqNo, id: &str) -> (e: WalEntry)
        requires
            old(seq)@ < u64::MAX,
        ensures
            final(seq)@ == old(seq)@ + 1,
            e@ == delete_entry(id@, final(seq)@),
    {
        let seqno = allocate(seq);
        let record = Record::new_tombstone(id, seqno);
        proof {
            reveal_strlit("");
            assert(""@ =~= Seq::<char>::empty());
        }
        WalEntry::new(WalOp::Delete, "", id, seqno, Some(record))
    }

    /// The second half of a write: the frame of the entry goes to the end of
    /// the log, and the record of the entry into the memtable.
    pub fn apply(&self, memtable: &mut MemTable, wal: &mut Wal, entry: WalEntry)
        ensures
            final(wal)@ == old(wal)@ + enc_frame(enc_wal_entry(entry@)),
            final(memtable)@ == applied(old(memtable)@, entry@),
            entry_valid(entry@),
    {
        wal.append(&entry);
        match entry.record {
            Some(record) => {
                memtable.put(record);
            },
            None => {},
        }
    }

    /// Puts `value` under `id`: the write takes the next seqno, its entry
    /// goes to the log and its record into the memtable. Returns the seqno.
    pub fn put(
        &self,
        seq: &mut SeqNo,
        memtable: &mut MemTable,
        wal: &mut Wal,
        id: &str,
        value: FieldMap,
    ) -> (seqno: u64)
        requires
            old(seq)@ < u64::MAX,
        ensures
            seqno == old(seq)@ + 1,
            final(seq)@ == seqno,
            final(wal)@ == old(wal)@ + enc_frame(enc_wal_entry(put_entry(id@, seqno, value@))),
            final(memtable)@ == applied(old(memtable)@, put_entry(id@, seqno, value@)),
    {
        let entry = self.prepare_put(seq, id, value);
        let seqno = entry.seqno;
        self.apply(memtable, wal, entry);
        seqno
    }

    /// Deletes `id`: as a put, with a tombstone for the record.
    pub fn delete(&self, seq: &mut SeqNo, memtable: &mut MemTable, wal: &mut Wal, id: &str) -> (seqno:
        u64)
        requires
            old(seq)@ < u64::MAX,
        ensures
            seqno == old(seq)@ + 1,
            final(seq)@ == seqno,
            final(wal)@ == old(wal)@ + enc_frame(enc_wal_entry(delete_entry(id@, seqno))),
            final(memtable)@ == applied(old(memtable)@, delete_entry(id@, seqno)),
    {
        let entry = self.prepare_delete(seq, id);
        let seqno = entry.seqno;
        self.apply(memtable, wal, entry);
        seqno
    }

    /// Whether the memtable is due for a flush: its records hold more than
    /// 64 KiB.
    pub fn needs_flush(&self, memtable: &MemTable) -> (r: bool)
        ensures
            r == (crate::storage::page::builder::clip(
                crate::storage::memtable::records_size(memtable@),
            ) > MEMTABLE_LIMIT_BYTES),
    {
        memtable.approx_size_bytes() > MEMTABLE_LIMIT_BYTES
    }

    /// The pages that a flush makes of the memtable, which stays as it is:
    /// its records in their order, cut at 32 KiB of payload and at 1024
    /// records, with ids from `current_page_id` on.
    pub fn flush_pages(&self, memtable: &MemTable, current_page_id: u64) -> (r: BuiltPages)
        requires
            current_page_id + memtable@.len() <= u64::MAX,
        ensures
            pages_for(
                pages_view(r.pages@),
                metas_view(r.metas@),
                chunks(memtable@, MAX_PER_PAGE_SIZE, MAX_RECORDS_PER_PAGE),
                current_page_id,
            ),
            r.next_page_id == current_page_id + chunks(
                memtable@,
                MAX_PER_PAGE_SIZE,
                MAX_RECORDS_PER_PAGE,
            ).len(),
    {
        build_pages(memtable.records(), MAX_PER_PAGE_SIZE, MAX_RECORDS_PER_PAGE, current_page_id)
    }

    /// Flushes the memtable: makes its pages as `flush_pages` does and
    /// clears it.
    pub fn flush(&self, memtable: &mut MemTable, current_page_id: u64) -> (r: BuiltPages)
        requires
            current_page_id + old(memtable)@.len() <= u64::MAX,
        ensures
            pages_for(
                pages_view(r.pages@),
                metas_view(r.metas@),
                chunks(old(memtable)@, MAX_PER_PAGE_SIZE, MAX_RECORDS_PER_PAGE),
                current_page_id,
            ),
            r.next_page_id == current_page_id + chunks(
                old(memtable)@,
                MAX_PER_PAGE_SIZE,
                MAX_RECORDS_PER_PAGE,
            ).len(),
            final(memtable)@ == Seq::<RecordModel>::empty(),
    {
        let built = self.flush_pages(memtable, current_page_id);
        memtable.clear();
        built
    }
}

} // verus!
