use shunyadb::engine::writer::Writer;
use shunyadb::error::Error;
use shunyadb::storage::flush::{build_pages, flush_memtable, MAX_PER_PAGE_SIZE, MAX_RECORDS_PER_PAGE};
use shunyadb::storage::memtable::MemTable;
use shunyadb::storage::page::reader::read_page;
use shunyadb::storage::record::{FieldValue, Record};

#[test]
fn memtable_flush_creates_page_and_clears_memtable() {
    let mut mem = MemTable::new();
    mem.put(Record::from_pairs("a", 1, vec![("v", FieldValue::Int(1))]));
    mem.put(Record::from_pairs("b", 2, vec![("v", FieldValue::Int(2))]));

    let built = Writer::new().flush(&mut mem, 0);

    assert!(mem.is_empty());

    assert_eq!(built.metas[0].file_name, "page_0.db");
    let page = read_page(&built.pages[0].to_bytes()).unwrap();
    assert_eq!(page.records.len(), 2);
    assert_eq!(page.records[0].id, "a");
    assert_eq!(page.records[1].id, "b");
}

#[test]
fn flushing_empty_memtable_fails() {
    let mem = MemTable::new();
    let result = flush_memtable(&mem, 0);

    assert!(result.is_err());
    assert_eq!(result.err(), Some(Error::Empty));
}

#[test]
fn flush_of_an_empty_memtable_through_the_writer_makes_no_page() {
    let mut mem = MemTable::new();
    let built = Writer::new().flush(&mut mem, 7);
    assert!(built.pages.is_empty());
    assert!(built.metas.is_empty());
    assert_eq!(built.next_page_id, 7);
}

#[test]
fn flush_cuts_after_1024_records() {
    assert_eq!(MAX_RECORDS_PER_PAGE, 1024);
    assert_eq!(MAX_PER_PAGE_SIZE, 32 * 1024);
    let mut mem = MemTable::new();
    // tombstones with short ids: 1025 of them stay far below 32 KiB
    for i in 0..1025u64 {
        mem.put(Record::new_tombstone(&format!("{:04}", i), i + 1));
    }
    let built = flush_memtable(&mem, 3).unwrap();
    assert_eq!(built.pages.len(), 2);
    assert_eq!(built.pages[0].records.len(), 1024);
    assert_eq!(built.pages[1].records.len(), 1);
    assert_eq!(built.next_page_id, 5);
    assert_eq!(built.metas[0].page_id, 3);
    assert_eq!(built.metas[0].file_name, "page_3.db");
    assert_eq!(built.metas[1].page_id, 4);
    assert_eq!(built.metas[1].file_name, "page_4.db");
    assert_eq!(built.metas[0].min_id, "0000");
    assert_eq!(built.metas[0].max_id, "1023");
    assert_eq!(built.metas[1].min_id, "1024");
    assert_eq!(built.metas[0].number_of_records, 1024);
    assert_eq!(built.metas[0].max_seqno, 1024);
    assert_eq!(built.metas[0].size_bytes as usize, built.pages[0].to_bytes().len());
    // the memtable stays
    assert!(!mem.is_empty());
}

#[test]
fn flush_cuts_before_the_payload_passes_the_limit() {
    let big = "x".repeat(10_000);
    let records: Vec<Record> = (0..5u64)
        .map(|i| Record::from_pairs(&format!("k{}", i), i + 1, vec![("v", FieldValue::Str(big.clone()))]))
        .collect();
    let one = records[0].encode().len();
    let built = build_pages(&records, MAX_PER_PAGE_SIZE, MAX_RECORDS_PER_PAGE, 0);
    // three records are 8 + 3 * one bytes, which is under the limit; four are over
    assert!(8 + 3 * one <= MAX_PER_PAGE_SIZE);
    assert!(8 + 4 * one > MAX_PER_PAGE_SIZE);
    assert_eq!(built.pages.len(), 2);
    assert_eq!(built.pages[0].records.len(), 3);
    assert_eq!(built.pages[1].records.len(), 2);
    assert_eq!(built.pages[0].payload.len(), 8 + 3 * one);
}

#[test]
fn a_record_longer_than_the_limit_gets_a_page_of_its_own() {
    let huge = "y".repeat(40_000);
    let records = vec![
        Record::from_pairs("a", 1, vec![]),
        Record::from_pairs("b", 2, vec![("v", FieldValue::Str(huge.clone()))]),
        Record::from_pairs("c", 3, vec![("v", FieldValue::Str(huge))]),
        Record::from_pairs("d", 4, vec![]),
    ];
    let built = build_pages(&records, MAX_PER_PAGE_SIZE, MAX_RECORDS_PER_PAGE, 0);
    let counts: Vec<usize> = built.pages.iter().map(|p| p.records.len()).collect();
    assert_eq!(counts, vec![1, 1, 1, 1]);
    assert_eq!(built.next_page_id, 4);
}

#[test]
fn needs_flush_above_64_kib() {
    let w = Writer::new();
    let mut mem = MemTable::new();
    assert!(!w.needs_flush(&mem));
    let text = "z".repeat(40_000);
    mem.put(Record::from_pairs("a", 1, vec![("v", FieldValue::Str(text.clone()))]));
    assert!(!w.needs_flush(&mem));
    mem.put(Record::from_pairs("b", 2, vec![("v", FieldValue::Str(text))]));
    assert!(w.needs_flush(&mem));
}
