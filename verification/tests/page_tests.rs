use shunyadb::error::Error;
use shunyadb::storage::page::builder::{Page, PageBuilder};
use shunyadb::storage::page::header::{PageHeader, PAGE_MAGIC, PAGE_VERSION};
use shunyadb::storage::page::lookup::PageLookupResult;
use shunyadb::storage::page::reader::read_page;
use shunyadb::storage::record::{FieldValue, Record};

#[test]
fn page_header_validation_works() {
    let header = PageHeader::new("a".into(), "z".into(), 10, 100);
    assert!(header.validate().is_ok());
}

#[test]
fn page_header_validation_works_with_min_max_error() {
    let header = PageHeader::new("z".into(), "a".into(), 10, 100);
    assert!(header.validate().is_err());
}

#[test]
fn page_header_detects_invalid_magic() {
    let mut header = PageHeader::new("a".into(), "z".into(), 10, 100);
    header.magic = 0xdeadbeef;
    assert!(header.validate().is_err());
}

#[test]
fn checksum_is_deterministic() {
    let payload = b"hello world";
    let c1 = PageHeader::compute_checksum(payload);
    let c2 = PageHeader::compute_checksum(payload);
    assert_eq!(c1, c2);
}

#[test]
fn checksum_is_crc32() {
    // the check value of CRC-32 (IEEE)
    assert_eq!(PageHeader::compute_checksum(b"123456789"), 0xcbf4_3926);
    assert_eq!(PageHeader::compute_checksum(b""), 0);
    assert_eq!(PageHeader::compute_checksum(b"hello world"), 0x0d4a_1185);
}

#[test]
fn page_builder_creates_sorted_page() {
    let mut pb = PageBuilder::new();

    pb.add(Record::from_pairs("b", 10, vec![("v", FieldValue::Int(2))]));
    pb.add(Record::from_pairs("a", 5, vec![("v", FieldValue::Int(1))]));
    pb.add(Record::from_pairs("c", 20, vec![("v", FieldValue::Int(3))]));

    let page = pb.build().unwrap();

    assert_eq!(page.header.min_id, "a");
    assert_eq!(page.header.max_id, "c");
    assert_eq!(page.header.num_records, 3);
    assert_eq!(page.header.page_seqno, 20);

    let ids: Vec<_> = page.records.iter().map(|r| r.id.as_str()).collect();
    assert_eq!(ids, vec!["a", "b", "c"]);
}

#[test]
fn checksum_matches_payload() {
    let mut pb = PageBuilder::new();
    pb.add(Record::from_pairs("x", 42, vec![("n", FieldValue::Int(100))]));

    let page = pb.build().unwrap();
    let checksum = PageHeader::compute_checksum(&page.payload);

    assert_eq!(checksum, page.header.checksum);
}

#[test]
#[should_panic]
fn empty_page_is_not_allowed() {
    let pb = PageBuilder::new();
    let _ = pb.build().unwrap();
}

#[test]
fn building_an_empty_page_fails_with_empty() {
    let pb = PageBuilder::new();
    assert_eq!(pb.build(), Err(Error::Empty));
}

#[test]
fn page_roundtrip_works() {
    let mut pb = PageBuilder::new();
    pb.add(Record::from_pairs("a", 1, vec![("x", FieldValue::Int(1))]));
    pb.add(Record::from_pairs("b", 2, vec![("x", FieldValue::Int(2))]));

    let page = pb.build().unwrap();

    // simulate disk bytes: [header][payload]
    let mut bytes = Vec::new();
    bytes.extend(page.header.encode());
    bytes.extend(&page.payload);

    let decoded = read_page(&bytes).unwrap();

    assert_eq!(decoded.header, page.header);
    assert_eq!(decoded.records.len(), 2);
    assert_eq!(decoded.records[0].id, "a");
    assert_eq!(decoded.records[1].id, "b");
}

#[test]
fn detects_checksum_corruption() {
    let mut pb = PageBuilder::new();
    pb.add(Record::from_pairs("x", 10, vec![("v", FieldValue::Int(1))]));
    let page = pb.build().unwrap();

    let mut bytes = Vec::new();
    bytes.extend(page.header.encode());

    // corrupt payload
    let mut payload = page.payload.clone();
    payload[0] ^= 0xFF;
    bytes.extend(payload);

    let result = read_page(&bytes);
    assert!(result.is_err());
}

// Tests for page lookup
#[test]
fn lookup_finds_existing_record() {
    let mut pb = PageBuilder::new();
    pb.add(Record::from_pairs("a", 5, vec![("v", FieldValue::Int(1))]));
    pb.add(Record::from_pairs("b", 10, vec![("v", FieldValue::Int(2))]));

    let page = pb.build().unwrap();

    let res = page.get("a", 100);
    assert!(matches!(res, PageLookupResult::Found(_)));
}

#[test]
fn lookup_respects_snapshot_seqno() {
    let mut pb = PageBuilder::new();
    pb.add(Record::from_pairs("x", 50, vec![("v", FieldValue::Int(1))]));

    let page = pb.build().unwrap();

    let res = page.get("x", 10);
    assert_eq!(res, PageLookupResult::NotVisible);
}

#[test]
fn lookup_returns_not_found_for_missing_key() {
    let mut pb = PageBuilder::new();
    pb.add(Record::from_pairs("a", 1, vec![("v", FieldValue::Int(1))]));

    let page = pb.build().unwrap();

    let res = page.get("z", 100);
    assert_eq!(res, PageLookupResult::NotFound);
}

#[test]
fn lookup_uses_page_pruning() {
    let mut pb = PageBuilder::new();
    pb.add(Record::from_pairs("m", 10, vec![("v", FieldValue::Int(1))]));
    pb.add(Record::from_pairs("n", 20, vec![("v", FieldValue::Int(2))]));

    let page = pb.build().unwrap();

    // outside page range
    let res = page.get("a", 100);
    assert_eq!(res, PageLookupResult::NotFound);
}

// the file of a page, as bytes
#[test]
fn page_write_and_read_roundtrip() {
    let mut pb = PageBuilder::new();
    pb.add(Record::from_pairs("a", 1, vec![("v", FieldValue::Int(1))]));
    pb.add(Record::from_pairs("b", 2, vec![("v", FieldValue::Int(2))]));

    let page = pb.build().unwrap();

    let file = page.to_bytes();
    let loaded = read_page(&file).unwrap();

    assert_eq!(loaded.header, page.header);
    assert_eq!(loaded.records.len(), 2);
    assert_eq!(loaded.records[0].id, "a");
    assert_eq!(loaded.records[1].id, "b");
    assert_eq!(loaded, page);
}

fn sample_page() -> Page {
    let mut pb = PageBuilder::new();
    pb.add(Record::from_pairs("k", 5, vec![("v", FieldValue::Int(1))]));
    pb.add(Record::from_pairs("a", 7, vec![("v", FieldValue::Str("x".into()))]));
    pb.add(Record::from_pairs("k", 8, vec![("v", FieldValue::Int(2))]));
    pb.add(Record::new_tombstone("k", 10));
    pb.add(Record::from_pairs("z", 3, vec![]));
    pb.build().unwrap()
}

#[test]
fn build_keeps_the_versions_of_a_key_in_their_order() {
    let page = sample_page();
    let got: Vec<(String, u64)> = page.records.iter().map(|r| (r.id.clone(), r.seqno)).collect();
    let expected: Vec<(String, u64)> = [("a", 7u64), ("k", 5), ("k", 8), ("k", 10), ("z", 3)]
        .iter()
        .map(|(id, s)| (id.to_string(), *s))
        .collect();
    assert_eq!(got, expected);
    assert_eq!(page.header.magic, PAGE_MAGIC);
    assert_eq!(page.header.magic, 0x53484442);
    assert_eq!(page.header.version, PAGE_VERSION);
    assert_eq!(page.header.min_id, "a");
    assert_eq!(page.header.max_id, "z");
    assert_eq!(page.header.num_records, 5);
    assert_eq!(page.header.page_seqno, 10);
}

#[test]
fn lookup_returns_the_version_that_the_snapshot_sees() {
    let page = sample_page();
    assert_eq!(page.get("k", 4), PageLookupResult::NotVisible);
    match page.get("k", 6) {
        PageLookupResult::Found(r) => assert_eq!(r.seqno, 5),
        other => panic!("unexpected {:?}", other),
    }
    match page.get("k", 9) {
        PageLookupResult::Found(r) => assert_eq!(r.seqno, 8),
        other => panic!("unexpected {:?}", other),
    }
    match page.get("k", u64::MAX) {
        PageLookupResult::Found(r) => assert!(r.is_tombstone),
        other => panic!("unexpected {:?}", other),
    }
    assert_eq!(page.get("b", u64::MAX), PageLookupResult::NotFound);
}

#[test]
fn estimate_is_the_length_of_the_payload() {
    let mut pb = PageBuilder::new();
    assert_eq!(pb.size(), 8);
    let r1 = Record::from_pairs("a", 1, vec![("v", FieldValue::Int(1))]);
    let r2 = Record::from_pairs("b", 2, vec![("v", FieldValue::Str("some text".into()))]);
    assert_eq!(pb.estimate_size_with(&r1), 8 + r1.encode().len());
    pb.add(r1.clone());
    assert_eq!(pb.size(), 8 + r1.encode().len());
    assert_eq!(pb.estimate_size_with(&r2), 8 + r1.encode().len() + r2.encode().len());
    pb.add(r2);
    assert_eq!(pb.len(), 2);
    let size = pb.size();
    let page = pb.build().unwrap();
    assert_eq!(page.payload.len(), size);
}

#[test]
fn header_layout() {
    let mut h = PageHeader::new("a".into(), "bc".into(), 3, 9);
    h.checksum = 0x0102_0304;
    let expected: Vec<u8> = vec![
        0x42, 0x44, 0x48, 0x53, // magic, little-endian
        1, 0, // version
        4, 3, 2, 1, // checksum
        1, 0, 0, 0, 0, 0, 0, 0, b'a', // min_id
        2, 0, 0, 0, 0, 0, 0, 0, b'b', b'c', // max_id
        3, 0, 0, 0, // num_records
        9, 0, 0, 0, 0, 0, 0, 0, // page_seqno
    ];
    assert_eq!(h.encode(), expected);
    let plain = (0x53484442u32, 1u16, 0x0102_0304u32, "a".to_string(), "bc".to_string(), 3u32, 9u64);
    assert_eq!(h.encode(), bincode::serialize(&plain).unwrap());
}

#[test]
fn read_page_refuses_what_is_no_page() {
    let page = sample_page();
    let good = page.to_bytes();
    assert_eq!(read_page(&good), Ok(page.clone()));

    // wrong magic
    let mut bad = good.clone();
    bad[0] ^= 1;
    assert_eq!(read_page(&bad), Err(Error::Corrupt));
    // wrong version
    let mut bad = good.clone();
    bad[4] = 2;
    assert_eq!(read_page(&bad), Err(Error::Corrupt));
    // truncated
    assert_eq!(read_page(&good[..good.len() - 1]), Err(Error::Corrupt));
    assert_eq!(read_page(&good[..10]), Err(Error::Corrupt));
    assert_eq!(read_page(&[]), Err(Error::Corrupt));
    // a count in the header that is not the number of records
    let mut other = sample_page();
    other.header.num_records = 4;
    assert_eq!(read_page(&other.to_bytes()), Err(Error::Corrupt));
    // min_id after max_id
    let mut other = sample_page();
    other.header.min_id = "zz".into();
    assert_eq!(read_page(&other.to_bytes()), Err(Error::Corrupt));
    // a checksum that is not that of the payload
    let mut other = sample_page();
    other.header.checksum ^= 1;
    assert_eq!(read_page(&other.to_bytes()), Err(Error::Corrupt));
}

#[test]
fn read_page_refuses_records_out_of_order() {
    // a payload with a valid checksum whose records are not in order
    let records = vec![Record::from_pairs("b", 1, vec![]), Record::from_pairs("a", 2, vec![])];
    let mut payload = Vec::new();
    payload.extend(2u64.to_le_bytes());
    for r in &records {
        payload.extend(r.encode());
    }
    let mut header = PageHeader::new("a".into(), "b".into(), 2, 2);
    header.checksum = PageHeader::compute_checksum(&payload);
    let mut bytes = header.encode();
    bytes.extend(&payload);
    assert_eq!(read_page(&bytes), Err(Error::Corrupt));
}
