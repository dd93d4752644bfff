use shunyadb::lsm::compaction::execute_l0_to_l1;
use shunyadb::lsm::compaction_plan::CompactionPlan;
use shunyadb::lsm::merge::{MergeIterator, MergeOutput, PageIterator};
use shunyadb::storage::page::builder::{Page, PageBuilder};
use shunyadb::storage::record::{FieldValue, Record};

fn rec(id: &str, seqno: u64, v: i64) -> Record {
    Record::from_pairs(id, seqno, vec![("v", FieldValue::Int(v))])
}

fn source(records: Vec<Record>, level: u32) -> (PageIterator, u32) {
    (PageIterator::new(records), level)
}

fn ids(records: &[Record]) -> Vec<(String, u64)> {
    records.iter().map(|r| (r.id.clone(), r.seqno)).collect()
}

fn pairs(p: &[(&str, u64)]) -> Vec<(String, u64)> {
    p.iter().map(|(id, s)| (id.to_string(), *s)).collect()
}

#[test]
fn merge_of_nothing() {
    let mut m = MergeIterator::new(vec![]);
    assert_eq!(m.next(), MergeOutput::Exhausted);
    let mut m = MergeIterator::new(vec![source(vec![], 0), source(vec![], 1)]);
    assert_eq!(m.next(), MergeOutput::Exhausted);
    assert!(m.merge_all().is_empty());
}

#[test]
fn merge_takes_the_keys_in_their_order() {
    let mut m = MergeIterator::new(vec![
        source(vec![rec("b", 2, 0), rec("d", 4, 0)], 0),
        source(vec![rec("a", 1, 0), rec("c", 3, 0), rec("e", 5, 0)], 1),
    ]);
    assert_eq!(m.next(), MergeOutput::Live(rec("a", 1, 0)));
    assert_eq!(m.next(), MergeOutput::Live(rec("b", 2, 0)));
    let rest = m.merge_all();
    assert_eq!(ids(&rest), pairs(&[("c", 3), ("d", 4), ("e", 5)]));
    assert_eq!(m.next(), MergeOutput::Exhausted);
}

#[test]
fn the_largest_seqno_wins() {
    let mut m = MergeIterator::new(vec![
        source(vec![rec("k", 5, 1), rec("k", 8, 2)], 0),
        source(vec![rec("k", 7, 3)], 0),
        source(vec![rec("k", 2, 4), rec("z", 1, 0)], 1),
    ]);
    assert_eq!(m.next(), MergeOutput::Live(rec("k", 8, 2)));
    assert_eq!(m.next(), MergeOutput::Live(rec("z", 1, 0)));
    assert_eq!(m.next(), MergeOutput::Exhausted);
}

#[test]
fn of_equal_seqnos_the_lower_level_wins() {
    let mut m = MergeIterator::new(vec![
        source(vec![rec("k", 5, 100)], 1),
        source(vec![rec("k", 5, 200)], 0),
    ]);
    assert_eq!(m.next(), MergeOutput::Live(rec("k", 5, 200)));
    let mut m = MergeIterator::new(vec![
        source(vec![rec("k", 5, 100)], 0),
        source(vec![rec("k", 5, 200)], 0),
    ]);
    assert_eq!(m.next(), MergeOutput::Live(rec("k", 5, 100)));
}

#[test]
fn a_tombstone_drops_its_key_and_the_stream_goes_on() {
    let mut m = MergeIterator::new(vec![
        source(vec![rec("a", 1, 0), Record::new_tombstone("k", 10), rec("z", 3, 0)], 0),
        source(vec![rec("k", 5, 1), rec("k", 8, 2)], 1),
    ]);
    assert_eq!(m.next(), MergeOutput::Live(rec("a", 1, 0)));
    assert_eq!(m.next(), MergeOutput::Dropped);
    assert_eq!(m.next(), MergeOutput::Live(rec("z", 3, 0)));
    assert_eq!(m.next(), MergeOutput::Exhausted);

    let mut m = MergeIterator::new(vec![
        source(vec![rec("a", 1, 0), Record::new_tombstone("k", 10), rec("z", 3, 0)], 0),
        source(vec![rec("k", 5, 1), rec("k", 8, 2)], 1),
    ]);
    assert_eq!(ids(&m.merge_all()), pairs(&[("a", 1), ("z", 3)]));
}

#[test]
fn a_put_after_a_delete_brings_the_key_back() {
    let mut m = MergeIterator::new(vec![
        source(vec![Record::new_tombstone("k", 10)], 1),
        source(vec![rec("k", 12, 7)], 0),
    ]);
    assert_eq!(m.next(), MergeOutput::Live(rec("k", 12, 7)));
}

#[test]
fn a_source_that_ends_while_a_key_is_collapsed_loses_nothing() {
    let mut m = MergeIterator::new(vec![
        source(vec![rec("k", 1, 0)], 0),
        source(vec![rec("k", 2, 0), rec("m", 3, 0)], 0),
        source(vec![rec("k", 4, 0)], 1),
        source(vec![rec("l", 5, 0)], 1),
    ]);
    assert_eq!(ids(&m.merge_all()), pairs(&[("k", 4), ("l", 5), ("m", 3)]));
}

fn page_of(records: Vec<Record>) -> Page {
    let mut b = PageBuilder::new();
    for r in records {
        b.add(r);
    }
    b.build().unwrap()
}

fn plan(target: usize, start: u64) -> CompactionPlan {
    CompactionPlan {
        source_level: 0,
        target_level: 1,
        input_l0_pages: vec![],
        input_l1_pages: vec![],
        min_key: String::new(),
        max_key: String::new(),
        target_page_size_bytes: target,
        target_page_id_start: start,
    }
}

#[test]
fn compaction_merges_and_cuts() {
    let l0 = vec![
        page_of(vec![rec("a", 11, 1), rec("c", 12, 1), Record::new_tombstone("e", 13)]),
        page_of(vec![rec("b", 14, 2), rec("c", 15, 2)]),
    ];
    let l1 = vec![page_of(vec![rec("a", 1, 0), rec("d", 2, 0), rec("e", 3, 0), rec("f", 4, 0)])];
    let built = execute_l0_to_l1(&plan(256 * 1024, 40), &l0, &l1);
    assert_eq!(built.pages.len(), 1);
    assert_eq!(built.metas.len(), 1);
    assert_eq!(built.next_page_id, 41);
    assert_eq!(
        ids(&built.pages[0].records),
        pairs(&[("a", 11), ("b", 14), ("c", 15), ("d", 2), ("f", 4)]),
    );
    let m = &built.metas[0];
    assert_eq!(m.page_id, 40);
    assert_eq!(m.file_name, "page_40.db");
    assert_eq!(m.min_id, "a");
    assert_eq!(m.max_id, "f");
    assert_eq!(m.number_of_records, 5);
    assert_eq!(m.max_seqno, 15);
    assert_eq!(m.size_bytes as usize, built.pages[0].to_bytes().len());

    // a small target cuts the stream into pages that do not overlap
    let one = rec("a", 11, 1).encode().len();
    let built = execute_l0_to_l1(&plan(8 + 2 * one, 40), &l0, &l1);
    let counts: Vec<usize> = built.pages.iter().map(|p| p.records.len()).collect();
    assert_eq!(counts, vec![2, 2, 1]);
    assert_eq!(built.next_page_id, 43);
    for i in 0..built.metas.len() {
        for j in 0..built.metas.len() {
            if i != j {
                assert!(!built.metas[i].overlaps(&built.metas[j]));
            }
        }
    }
}

#[test]
fn compaction_of_deleted_keys_only_makes_no_page() {
    let l0 = vec![page_of(vec![Record::new_tombstone("a", 5)])];
    let l1 = vec![page_of(vec![rec("a", 1, 0)])];
    let built = execute_l0_to_l1(&plan(1024, 9), &l0, &l1);
    assert!(built.pages.is_empty());
    assert!(built.metas.is_empty());
    assert_eq!(built.next_page_id, 9);
}
