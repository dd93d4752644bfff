use shunyadb::engine::seqno::{allocate, SeqNo};
use shunyadb::error::Error;
use shunyadb::storage::record::{FieldValue, Record};
use shunyadb::storage::wal::replay::ReplayResult;
use shunyadb::storage::wal::{Wal, WalEntry, WalOp};

fn reopen(wal: &Wal) -> Wal {
    Wal::from_bytes(wal.as_bytes().clone())
}

#[test]
fn wal_append_and_read() {
    let mut seq = SeqNo::new();
    let mut wal = Wal::new();

    let seq1 = allocate(&mut seq);
    let rec1 = Record::from_pairs("1", seq1, vec![("name", FieldValue::Str("alice".into()))]);
    let e1 = WalEntry::new(WalOp::Insert, "users", "1", seq1, Some(rec1.clone()));

    wal.append(&e1);

    let seq2 = allocate(&mut seq);
    let rec2 = Record::new_tombstone("1", seq2);
    let e2 = WalEntry::new(WalOp::Delete, "users", "1", seq2, Some(rec2.clone()));

    wal.append(&e2);

    let wal = reopen(&wal);
    let entries = wal.read_all().unwrap();

    assert_eq!(entries.len(), 2);
    assert_eq!(entries[0], e1);
    assert_eq!(entries[1], e2);
}

#[test]
fn wal_handles_truncated_data_gracefully() {
    // create truncated WAL
    let mut bytes = Vec::new();
    bytes.extend(5u64.to_le_bytes()); // fake length
    bytes.extend([1u8, 2, 3]); // incomplete payload

    let wal = Wal::from_bytes(bytes);
    let entries = wal.read_all().unwrap();

    assert!(entries.is_empty()); // truncated WAL should just stop, not crash
}

#[test]
fn replay_detects_seqno_ordering() {
    let mut seq = SeqNo::new();
    let mut wal = Wal::new();

    // Create correct order
    let seq1 = allocate(&mut seq);
    let e1 = WalEntry::new(WalOp::Insert, "tbl", "id1", seq1, None);
    wal.append(&e1);

    let seq2 = allocate(&mut seq);
    let e2 = WalEntry::new(WalOp::Insert, "tbl", "id2", seq2, None);
    wal.append(&e2);

    let wal = reopen(&wal);
    let replay = ReplayResult::replay_wal(&wal).unwrap();

    assert_eq!(replay.entries.len(), 2);
    assert_eq!(replay.max_seqno, seq2);
}

#[test]
fn replay_rejects_out_of_order_seqno() {
    // manually create WAL with bad seqno ordering
    let mut file: Vec<u8> = Vec::new();
    let bad = vec![
        // first entry: seqno 10
        WalEntry {
            seqno: 10,
            op: WalOp::Insert,
            table: "x".into(),
            record_id: "1".into(),
            record: None,
        }
        .encode(),
        // second entry: seqno 9 (invalid!)
        WalEntry {
            seqno: 9,
            op: WalOp::Insert,
            table: "x".into(),
            record_id: "2".into(),
            record: None,
        }
        .encode(),
    ];

    for p in bad {
        let len = p.len() as u64;
        file.extend(len.to_le_bytes());
        file.extend(&p);
        file.extend(len.to_le_bytes());
    }

    let wal = Wal::from_bytes(file);
    let replay = ReplayResult::replay_wal(&wal);

    assert!(replay.is_err()); // correctly rejects bad WAL order
    assert_eq!(replay.err(), Some(Error::Corrupt));
}

fn entry(seqno: u64, id: &str, v: i64) -> WalEntry {
    let rec = Record::from_pairs(id, seqno, vec![("v", FieldValue::Int(v))]);
    WalEntry::new(WalOp::Insert, "", id, seqno, Some(rec))
}

#[test]
fn frame_is_length_payload_length() {
    let e = entry(3, "k", 1);
    let payload = e.encode();
    let frame = e.frame();
    let n = payload.len();
    assert_eq!(frame.len(), n + 16);
    assert_eq!(&frame[..8], &(n as u64).to_le_bytes());
    assert_eq!(&frame[8..8 + n], &payload[..]);
    assert_eq!(&frame[8 + n..], &(n as u64).to_le_bytes());

    let mut wal = Wal::new();
    wal.append(&e);
    assert_eq!(wal.as_bytes(), &frame);
}

#[test]
fn entry_layout_agrees_with_bincode() {
    let e = WalEntry::new(WalOp::Update, "users", "7", 12, None);
    let plain = (12u64, 1u32, "users".to_string(), "7".to_string(), None::<u8>);
    assert_eq!(e.encode(), bincode::serialize(&plain).unwrap());
    assert_eq!(WalEntry::decode(&e.encode()), Ok(e));

    let rec = Record::new_tombstone("7", 13);
    let d = WalEntry::new(WalOp::Delete, "users", "7", 13, Some(rec));
    let empty: std::collections::BTreeMap<String, u8> = std::collections::BTreeMap::new();
    let plain = (
        13u64,
        2u32,
        "users".to_string(),
        "7".to_string(),
        Some(("7".to_string(), 13u64, true, empty)),
    );
    assert_eq!(d.encode(), bincode::serialize(&plain).unwrap());
    assert_eq!(WalEntry::decode(&d.encode()), Ok(d));
}

#[test]
fn read_all_on_a_truncated_tail_returns_the_prefix() {
    let mut wal = Wal::new();
    let e1 = entry(1, "a", 1);
    let e2 = entry(2, "b", 2);
    let e3 = entry(3, "c", 3);
    wal.append(&e1);
    wal.append(&e2);
    let whole = wal.as_bytes().clone();
    let last = e3.frame();
    // every way of cutting the last frame short
    for k in 0..last.len() {
        let mut bytes = whole.clone();
        bytes.extend(&last[..k]);
        let entries = Wal::from_bytes(bytes).read_all().unwrap();
        assert_eq!(entries, vec![e1.clone(), e2.clone()]);
    }
    let mut bytes = whole.clone();
    bytes.extend(&last);
    assert_eq!(Wal::from_bytes(bytes).read_all().unwrap(), vec![e1, e2, e3]);
}

#[test]
fn read_all_stops_at_a_frame_whose_lengths_differ() {
    let mut wal = Wal::new();
    let e1 = entry(1, "a", 1);
    wal.append(&e1);
    let mut bytes = wal.as_bytes().clone();
    let mut bad = entry(2, "b", 2).frame();
    let n = bad.len();
    bad[n - 8] ^= 1;
    bytes.extend(&bad);
    bytes.extend(entry(3, "c", 3).frame());
    assert_eq!(Wal::from_bytes(bytes.clone()).read_all().unwrap(), vec![e1]);
    // rewriting must not drop what follows silently
    let mut wal = Wal::from_bytes(bytes.clone());
    assert_eq!(wal.rewrite_to(0), Err(Error::Corrupt));
    assert_eq!(wal.as_bytes(), &bytes);
}

#[test]
fn a_whole_frame_that_holds_no_entry_is_corrupt() {
    let mut bytes = Vec::new();
    bytes.extend(3u64.to_le_bytes());
    bytes.extend([1u8, 2, 3]);
    bytes.extend(3u64.to_le_bytes());
    let mut wal = Wal::from_bytes(bytes);
    assert_eq!(wal.read_all(), Err(Error::Corrupt));
    assert_eq!(wal.rewrite_to(0), Err(Error::Corrupt));
}

#[test]
fn rewrite_keeps_the_frames_above_the_checkpoint() {
    let mut wal = Wal::new();
    let es: Vec<WalEntry> = (1..=5).map(|i| entry(i, "k", i as i64)).collect();
    for e in &es {
        wal.append(e);
    }
    let mut expected = Vec::new();
    expected.extend(es[3].frame());
    expected.extend(es[4].frame());
    assert_eq!(wal.rewrite_to(3), Ok(()));
    assert_eq!(wal.as_bytes(), &expected);
    assert_eq!(wal.read_all().unwrap(), vec![es[3].clone(), es[4].clone()]);
}

#[test]
fn rewrite_with_nothing_above_the_checkpoint_leaves_the_log_empty() {
    let mut wal = Wal::new();
    for i in 1..=5 {
        wal.append(&entry(i, "k", i as i64));
    }
    assert_eq!(wal.rewrite_to(5), Ok(()));
    assert!(wal.as_bytes().is_empty());
    assert_eq!(wal.read_all().unwrap(), vec![]);

    let mut empty = Wal::new();
    assert_eq!(empty.rewrite_to(9), Ok(()));
    assert!(empty.as_bytes().is_empty());
}

#[test]
fn rewrite_drops_a_torn_tail() {
    let mut wal = Wal::new();
    wal.append(&entry(1, "a", 1));
    wal.append(&entry(2, "b", 2));
    let mut bytes = wal.as_bytes().clone();
    let torn = entry(3, "c", 3).frame();
    bytes.extend(&torn[..torn.len() - 3]);
    let mut wal = Wal::from_bytes(bytes);
    assert_eq!(wal.rewrite_to(1), Ok(()));
    assert_eq!(wal.as_bytes(), &entry(2, "b", 2).frame());
}

#[test]
fn replay_of_an_empty_log() {
    let replay = ReplayResult::replay_wal(&Wal::new()).unwrap();
    assert!(replay.entries.is_empty());
    assert_eq!(replay.max_seqno, 0);
}

#[test]
fn replay_refuses_equal_seqnos_and_seqno_zero() {
    assert!(ReplayResult::new(vec![entry(4, "a", 1), entry(4, "b", 1)]).is_err());
    assert!(ReplayResult::new(vec![entry(0, "a", 1)]).is_err());
    let ok = ReplayResult::new(vec![entry(4, "a", 1), entry(9, "b", 1)]).unwrap();
    assert_eq!(ok.max_seqno, 9);
    assert_eq!(ok.entries.len(), 2);
}

#[test]
fn decode_refuses_an_unknown_operation() {
    let mut bytes = entry(1, "a", 1).encode();
    bytes[8] = 3;
    assert_eq!(WalEntry::decode(&bytes), Err(Error::Corrupt));
    let mut bytes = WalEntry::new(WalOp::Insert, "t", "a", 1, None).encode();
    let n = bytes.len();
    bytes[n - 1] = 2;
    assert_eq!(WalEntry::decode(&bytes), Err(Error::Corrupt));
}
