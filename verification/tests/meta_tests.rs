use shunyadb::lsm::compaction_plan::{plan_l0_to_l1, L0_PAGES_LIMIT, L0_SIZE_LIMIT_BYTES, L1_PAGE_BYTES};
use shunyadb::lsm::level::{Level, PageMeta};
use shunyadb::meta::{compute_checkpoint_seqno, largest_page_seqno, maybe_checkpoint_wal, TableMeta};
use shunyadb::storage::record::Record;
use shunyadb::storage::wal::{Wal, WalEntry, WalOp};

fn page(id: u64, min: &str, max: &str, size: u64, seqno: u64) -> PageMeta {
    PageMeta::new(id, min.to_string(), max.to_string(), 1, size, seqno)
}

#[test]
fn page_meta_names_its_file() {
    assert_eq!(page(0, "a", "b", 1, 1).file_name, "page_0.db");
    assert_eq!(page(7, "a", "b", 1, 1).file_name, "page_7.db");
    assert_eq!(page(1234567890, "a", "b", 1, 1).file_name, "page_1234567890.db");
    assert_eq!(page(u64::MAX, "a", "b", 1, 1).file_name, "page_18446744073709551615.db");
}

#[test]
fn ranges_overlap_when_they_share_an_id() {
    let p = page(1, "c", "f", 1, 1);
    assert!(p.overlaps(&page(2, "a", "c", 1, 1)));
    assert!(p.overlaps(&page(2, "f", "z", 1, 1)));
    assert!(p.overlaps(&page(2, "d", "e", 1, 1)));
    assert!(p.overlaps(&page(2, "a", "z", 1, 1)));
    assert!(!p.overlaps(&page(2, "a", "b", 1, 1)));
    assert!(!p.overlaps(&page(2, "g", "z", 1, 1)));
    assert!(p.holds("c") && p.holds("e") && p.holds("f"));
    assert!(!p.holds("b") && !p.holds("g"));
}

#[test]
fn level_keeps_its_pages_in_the_order_of_their_smallest_ids() {
    let mut l1 = Level::new(1, 4096);
    assert_eq!(l1.page_count(), 0);
    assert!(l1.insert_page(page(1, "m", "p", 1, 1)).is_ok());
    assert!(l1.insert_page(page(2, "a", "c", 1, 1)).is_ok());
    assert!(l1.insert_page(page(3, "x", "z", 1, 1)).is_ok());
    let ids: Vec<u64> = l1.get_pages().iter().map(|p| p.page_id).collect();
    assert_eq!(ids, vec![2, 1, 3]);
    assert!(!l1.accepts(&page(4, "b", "d", 1, 1)));
    assert!(l1.accepts(&page(4, "d", "e", 1, 1)));
    l1.clear();
    assert_eq!(l1.page_count(), 0);

    // level zero takes pages that overlap; pages with one smallest id keep their order
    let mut l0 = Level::new(0, 4096);
    assert!(l0.accepts(&page(1, "a", "z", 1, 1)));
    l0.insert_page(page(1, "a", "z", 1, 1)).unwrap();
    l0.insert_page(page(2, "a", "c", 1, 1)).unwrap();
    l0.insert_page(page(3, "0", "c", 1, 1)).unwrap();
    let ids: Vec<u64> = l0.get_pages().iter().map(|p| p.page_id).collect();
    assert_eq!(ids, vec![3, 1, 2]);
}

#[test]
fn default_manifest() {
    let m = TableMeta::new();
    assert_eq!(m.version, 1);
    assert_eq!(m.level.len(), 2);
    assert!(m.level[0].is_empty());
    assert!(m.level[1].is_empty());
    assert_eq!(m.checkpoint_seqno, 0);
    assert_eq!(m.current_page_id, 0);
    assert_eq!(compute_checkpoint_seqno(&m), 0);
    assert_eq!(largest_page_seqno(&m), 0);
    assert!(plan_l0_to_l1(&m).is_none());
}

#[test]
fn add_pages_extends_level_zero() {
    let mut m = TableMeta::new();
    m.add_pages(vec![page(0, "a", "b", 1, 5)]);
    m.add_pages(vec![page(1, "a", "c", 1, 9), page(2, "d", "e", 1, 7)]);
    let ids: Vec<u64> = m.level[0].iter().map(|p| p.page_id).collect();
    assert_eq!(ids, vec![0, 1, 2]);
    assert!(m.level[1].is_empty());
    assert_eq!(compute_checkpoint_seqno(&m), 5);
    assert_eq!(largest_page_seqno(&m), 9);

    let mut bare = TableMeta { version: 1, level: vec![], checkpoint_seqno: 0, current_page_id: 0 };
    bare.add_pages(vec![page(0, "a", "b", 1, 5)]);
    assert_eq!(bare.level.len(), 1);
    assert_eq!(bare.level[0].len(), 1);
}

#[test]
fn checkpoint_is_the_smallest_max_seqno_of_all_levels() {
    let mut m = TableMeta::new();
    m.level[0].push(page(0, "a", "b", 1, 50));
    m.level[1].push(page(1, "a", "b", 1, 20));
    m.level[1].push(page(2, "c", "d", 1, 30));
    assert_eq!(compute_checkpoint_seqno(&m), 20);
    assert_eq!(largest_page_seqno(&m), 50);
}

#[test]
fn plan_needs_eight_pages_or_256_kib() {
    assert_eq!(L0_PAGES_LIMIT, 8);
    assert_eq!(L0_SIZE_LIMIT_BYTES, 256 * 1024);
    assert_eq!(L1_PAGE_BYTES, 256 * 1024);
    let mut m = TableMeta::new();
    for i in 0..7 {
        m.add_pages(vec![page(i, "a", "b", 10, i + 1)]);
    }
    assert!(plan_l0_to_l1(&m).is_none());
    m.add_pages(vec![page(7, "a", "b", 10, 8)]);
    assert!(plan_l0_to_l1(&m).is_some());

    let mut big = TableMeta::new();
    big.add_pages(vec![page(0, "a", "b", 256 * 1024 - 1, 1)]);
    assert!(plan_l0_to_l1(&big).is_none());
    big.add_pages(vec![page(1, "a", "b", 1, 2)]);
    assert!(plan_l0_to_l1(&big).is_some());

    let mut huge = TableMeta::new();
    huge.add_pages(vec![page(0, "a", "b", u64::MAX, 1), page(1, "a", "b", u64::MAX, 2)]);
    assert!(plan_l0_to_l1(&huge).is_some());
}

#[test]
fn plan_takes_level_zero_and_what_it_touches_of_level_one() {
    let mut m = TableMeta::new();
    m.level[1].push(page(100, "a", "c", 1, 1));
    m.level[1].push(page(101, "d", "f", 1, 1));
    m.level[1].push(page(102, "g", "k", 1, 1));
    m.level[1].push(page(103, "x", "z", 1, 1));
    for (i, (lo, hi)) in [("f", "g"), ("e", "h"), ("g", "m"), ("f", "f"), ("h", "i"), ("e", "e"), ("l", "m"), ("g", "g")]
        .iter()
        .enumerate()
    {
        m.add_pages(vec![page(i as u64, lo, hi, 10, i as u64 + 1)]);
    }
    m.current_page_id = 200;
    let plan = plan_l0_to_l1(&m).unwrap();
    assert_eq!(plan.source_level, 0);
    assert_eq!(plan.target_level, 1);
    assert_eq!(plan.input_l0_pages, m.level[0]);
    assert_eq!(plan.min_key, "e");
    assert_eq!(plan.max_key, "m");
    let l1: Vec<u64> = plan.input_l1_pages.iter().map(|p| p.page_id).collect();
    assert_eq!(l1, vec![101, 102]);
    assert_eq!(plan.target_page_size_bytes, 256 * 1024);
    assert_eq!(plan.target_page_id_start, 200);
}

#[test]
fn install_replaces_what_the_new_pages_overlap() {
    let mut m = TableMeta::new();
    m.level[0].push(page(5, "e", "m", 1, 9));
    m.level[1].push(page(100, "a", "c", 1, 1));
    m.level[1].push(page(101, "d", "f", 1, 1));
    m.level[1].push(page(102, "g", "k", 1, 1));
    m.level[1].push(page(103, "x", "z", 1, 1));
    m.checkpoint_seqno = 3;
    m.install_compaction(vec![page(200, "d", "h", 1, 9), page(201, "i", "m", 1, 8)], 202);
    assert!(m.level[0].is_empty());
    let l1: Vec<u64> = m.level[1].iter().map(|p| p.page_id).collect();
    assert_eq!(l1, vec![100, 103, 200, 201]);
    assert_eq!(m.current_page_id, 202);
    assert_eq!(m.checkpoint_seqno, 3);
    assert_eq!(m.version, 1);
    for i in 0..m.level[1].len() {
        for j in 0..m.level[1].len() {
            if i != j {
                assert!(!m.level[1][i].overlaps(&m.level[1][j]));
            }
        }
    }
}

#[test]
fn install_keeps_the_upper_levels() {
    let mut m = TableMeta::new();
    m.level.push(vec![page(300, "a", "z", 1, 1)]);
    m.level[0].push(page(5, "e", "m", 1, 9));
    m.install_compaction(vec![page(200, "e", "m", 1, 9)], 201);
    assert_eq!(m.level.len(), 3);
    assert_eq!(m.level[2].len(), 1);
    assert_eq!(m.level[2][0].page_id, 300);

    let mut bare = TableMeta { version: 1, level: vec![], checkpoint_seqno: 0, current_page_id: 0 };
    bare.install_compaction(vec![page(200, "e", "m", 1, 9)], 201);
    assert_eq!(bare.level.len(), 2);
    assert!(bare.level[0].is_empty());
    assert_eq!(bare.level[1].len(), 1);
}

fn log_of(seqnos: &[u64]) -> Wal {
    let mut wal = Wal::new();
    for s in seqnos {
        wal.append(&WalEntry::new(WalOp::Delete, "", "k", *s, Some(Record::new_tombstone("k", *s))));
    }
    wal
}

#[test]
fn checkpoint_cuts_the_log_and_moves_forward_only() {
    let mut m = TableMeta::new();
    let mut wal = log_of(&[1, 2, 3, 4, 5]);
    // no pages: the checkpoint stays at zero
    let before = wal.as_bytes().clone();
    assert_eq!(maybe_checkpoint_wal(&mut m, &mut wal), Ok(false));
    assert_eq!(m.checkpoint_seqno, 0);
    assert_eq!(wal.as_bytes(), &before);

    m.add_pages(vec![page(0, "a", "z", 1, 3)]);
    assert_eq!(maybe_checkpoint_wal(&mut m, &mut wal), Ok(true));
    assert_eq!(m.checkpoint_seqno, 3);
    let left: Vec<u64> = wal.read_all().unwrap().iter().map(|e| e.seqno).collect();
    assert_eq!(left, vec![4, 5]);

    // nothing new: nothing happens
    let before = wal.as_bytes().clone();
    assert_eq!(maybe_checkpoint_wal(&mut m, &mut wal), Ok(false));
    assert_eq!(m.checkpoint_seqno, 3);
    assert_eq!(wal.as_bytes(), &before);

    // a page with a smaller max_seqno does not move the checkpoint back
    m.add_pages(vec![page(1, "a", "z", 1, 2)]);
    assert_eq!(maybe_checkpoint_wal(&mut m, &mut wal), Ok(false));
    assert_eq!(m.checkpoint_seqno, 3);
}

#[test]
fn the_default_manifest_is_that_of_an_empty_store() {
    assert_eq!(TableMeta::default(), TableMeta::new());
}
