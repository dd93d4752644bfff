use shunyadb::engine::recovery::recover;
use shunyadb::engine::seqno::{current, SeqNo};
use shunyadb::engine::writer::Writer;
use shunyadb::error::Error;
use shunyadb::lsm::level::PageMeta;
use shunyadb::meta::TableMeta;
use shunyadb::storage::fields::FieldMap;
use shunyadb::storage::memtable::MemTable;
use shunyadb::storage::record::{FieldValue, Record};
use shunyadb::storage::wal::{Wal, WalEntry, WalOp};

fn fields(v: i64) -> FieldMap {
    let mut m = FieldMap::new();
    m.insert("v", FieldValue::Int(v));
    m
}

#[test]
fn writer_put_and_delete() {
    let w = Writer::new();
    let mut seq = SeqNo::new();
    let mut mem = MemTable::new();
    let mut wal = Wal::new();
    assert_eq!(w.put(&mut seq, &mut mem, &mut wal, "k", fields(1)), 1);
    assert_eq!(w.put(&mut seq, &mut mem, &mut wal, "k", fields(2)), 2);
    assert_eq!(w.delete(&mut seq, &mut mem, &mut wal, "j"), 3);
    assert_eq!(current(&seq), 3);
    let entries = wal.read_all().unwrap();
    assert_eq!(entries.len(), 3);
    assert_eq!(entries[0], WalEntry::new(WalOp::Insert, "", "k", 1, Some(Record::new("k", 1, fields(1)))));
    assert_eq!(entries[2], WalEntry::new(WalOp::Delete, "", "j", 3, Some(Record::new_tombstone("j", 3))));
    assert_eq!(mem.get("k", u64::MAX), Some(&Record::new("k", 2, fields(2))));
    assert_eq!(mem.get("k", 1), Some(&Record::new("k", 1, fields(1))));
    assert_eq!(mem.get("j", u64::MAX), None);
}

#[test]
fn a_write_in_two_halves() {
    let w = Writer::new();
    let mut seq = SeqNo::new();
    let mut mem = MemTable::new();
    let mut wal = Wal::new();
    let entry = w.prepare_put(&mut seq, "k", fields(1));
    assert_eq!(entry.seqno, 1);
    // nothing is in the memtable before the entry was applied
    assert!(mem.is_empty());
    assert!(wal.as_bytes().is_empty());
    let frame = entry.frame();
    w.apply(&mut mem, &mut wal, entry);
    assert_eq!(wal.as_bytes(), &frame);
    assert_eq!(mem.get("k", u64::MAX).unwrap().seqno, 1);
    let entry = w.prepare_delete(&mut seq, "k");
    assert_eq!(entry.op, WalOp::Delete);
    assert!(entry.record.as_ref().unwrap().is_tombstone);
    w.apply(&mut mem, &mut wal, entry);
    assert_eq!(mem.get("k", u64::MAX), None);
}

#[test]
fn recovery_replays_what_is_above_the_checkpoint() {
    let w = Writer::new();
    let mut seq = SeqNo::new();
    let mut mem = MemTable::new();
    let mut wal = Wal::new();
    for i in 0..5 {
        w.put(&mut seq, &mut mem, &mut wal, &format!("k{}", i), fields(i));
    }
    w.delete(&mut seq, &mut mem, &mut wal, "k0");

    let mut meta = TableMeta::new();
    meta.checkpoint_seqno = 2;
    meta.current_page_id = 10;
    let mut fresh_seq = SeqNo::new();
    let mut fresh_mem = MemTable::new();
    let pages = recover(&wal, &mut fresh_mem, &w, &mut meta, &mut fresh_seq).unwrap();
    assert!(fresh_mem.is_empty());
    assert_eq!(pages.len(), 1);
    let got: Vec<(String, u64, bool)> =
        pages[0].records.iter().map(|r| (r.id.clone(), r.seqno, r.is_tombstone)).collect();
    let expected: Vec<(String, u64, bool)> =
        [("k0", 6u64, true), ("k2", 3, false), ("k3", 4, false), ("k4", 5, false)]
            .iter()
            .map(|(id, s, t)| (id.to_string(), *s, *t))
            .collect();
    assert_eq!(got, expected);
    assert_eq!(meta.level[0].len(), 1);
    assert_eq!(meta.level[0][0].page_id, 10);
    assert_eq!(meta.level[0][0].file_name, "page_10.db");
    assert_eq!(meta.current_page_id, 11);
    assert_eq!(meta.checkpoint_seqno, 2);
    assert_eq!(current(&fresh_seq), 7);
}

#[test]
fn recovery_of_an_absorbed_log_changes_nothing() {
    let w = Writer::new();
    let mut seq = SeqNo::new();
    let mut mem = MemTable::new();
    let mut wal = Wal::new();
    for i in 0..5 {
        w.put(&mut seq, &mut mem, &mut wal, &format!("k{}", i), fields(i));
    }
    let mut meta = TableMeta::new();
    meta.add_pages(vec![PageMeta::new(0, "k0".into(), "k4".into(), 5, 100, 5)]);
    meta.checkpoint_seqno = 5;
    meta.current_page_id = 1;
    let before = meta.clone();
    let mut fresh_mem = MemTable::new();
    let mut fresh_seq = SeqNo::new();
    let pages = recover(&wal, &mut fresh_mem, &w, &mut meta, &mut fresh_seq).unwrap();
    assert!(pages.is_empty());
    assert!(fresh_mem.is_empty());
    assert_eq!(meta, before);
    assert_eq!(current(&fresh_seq), 6);
    // once more
    let pages = recover(&wal, &mut fresh_mem, &w, &mut meta, &mut fresh_seq).unwrap();
    assert!(pages.is_empty());
    assert_eq!(meta, before);
    assert_eq!(current(&fresh_seq), 6);
}

#[test]
fn recovery_raises_the_counter_above_the_pages_when_the_log_is_empty() {
    let w = Writer::new();
    let mut meta = TableMeta::new();
    meta.add_pages(vec![PageMeta::new(0, "a".into(), "b".into(), 5, 100, 41)]);
    meta.checkpoint_seqno = 41;
    let mut mem = MemTable::new();
    let mut seq = SeqNo::new();
    let pages = recover(&Wal::new(), &mut mem, &w, &mut meta, &mut seq).unwrap();
    assert!(pages.is_empty());
    assert_eq!(current(&seq), 42);
}

#[test]
fn recovery_refuses_a_log_whose_seqnos_do_not_go_up() {
    let mut wal = Wal::new();
    wal.append(&WalEntry::new(WalOp::Insert, "", "a", 10, Some(Record::new("a", 10, fields(1)))));
    wal.append(&WalEntry::new(WalOp::Insert, "", "b", 9, Some(Record::new("b", 9, fields(1)))));
    let mut meta = TableMeta::new();
    let before = meta.clone();
    let mut mem = MemTable::new();
    let mut seq = SeqNo::new();
    let r = recover(&wal, &mut mem, &Writer::new(), &mut meta, &mut seq);
    assert_eq!(r, Err(Error::Corrupt));
    assert!(mem.is_empty());
    assert_eq!(meta, before);
    assert_eq!(current(&seq), 0);
}
