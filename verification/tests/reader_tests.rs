use shunyadb::cache::lru::LruCache;
use shunyadb::engine::metrics::EngineMetrics;
use shunyadb::engine::reader::{ReadStep, Reader};
use shunyadb::meta::TableMeta;
use shunyadb::storage::flush::page_meta;
use shunyadb::storage::memtable::MemTable;
use shunyadb::storage::page::builder::{Page, PageBuilder};
use shunyadb::storage::record::{FieldValue, Record};

fn rec(id: &str, seqno: u64, v: i64) -> Record {
    Record::from_pairs(id, seqno, vec![("v", FieldValue::Int(v))])
}

fn page_of(records: Vec<Record>) -> Page {
    let mut b = PageBuilder::new();
    for r in records {
        b.add(r);
    }
    b.build().unwrap()
}

// performs the part of the caller: hands the reader the pages it asks for
fn lookup(
    meta: &TableMeta,
    mem: &MemTable,
    pages: &[Page],
    cache: &mut LruCache<Page>,
    metrics: &mut EngineMetrics,
    id: &str,
    snapshot: u64,
) -> Option<Record> {
    let reader = Reader::new();
    let mut step = reader.get(meta, mem, id, snapshot, cache, metrics);
    loop {
        match step {
            ReadStep::Found(r) => return Some(r),
            ReadStep::NotPresent => return None,
            ReadStep::NeedPage { level, offset } => {
                let m = reader.page_at(meta, level, offset).unwrap();
                let page = pages[m.page_id as usize].clone();
                step = reader.resume(meta, id, snapshot, cache, metrics, level, offset, m.page_id, page);
            }
        }
    }
}

fn store() -> (TableMeta, Vec<Page>) {
    // page ids are positions in the list
    let pages = vec![
        page_of(vec![rec("a", 1, 10), rec("k", 2, 20), rec("z", 3, 30)]), // level one
        page_of(vec![rec("k", 5, 50), rec("m", 6, 60)]),                 // level zero, older
        page_of(vec![Record::new_tombstone("a", 7), rec("k", 8, 80)]),   // level zero, newer
    ];
    let mut meta = TableMeta::new();
    meta.level[1].push(page_meta(&pages[0], 0));
    meta.level[0].push(page_meta(&pages[1], 1));
    meta.level[0].push(page_meta(&pages[2], 2));
    meta.current_page_id = 3;
    (meta, pages)
}

#[test]
fn the_memtable_is_asked_first() {
    let (meta, pages) = store();
    let mut mem = MemTable::new();
    mem.put(rec("k", 9, 90));
    mem.put(Record::new_tombstone("m", 10));
    let mut cache = LruCache::new(4);
    let mut metrics = EngineMetrics::new();
    let got = lookup(&meta, &mem, &pages, &mut cache, &mut metrics, "k", u64::MAX);
    assert_eq!(got, Some(rec("k", 9, 90)));
    // a tombstone in the memtable hides what the pages hold
    let got = lookup(&meta, &mem, &pages, &mut cache, &mut metrics, "m", u64::MAX);
    assert_eq!(got, None);
    assert_eq!(metrics.reads, 2);
    assert_eq!(metrics.pages_read_from_disk, 0);
    assert_eq!(cache.len(), 0);
    // below the memtable's versions the pages answer
    let got = lookup(&meta, &mem, &pages, &mut cache, &mut metrics, "m", 9);
    assert_eq!(got, Some(rec("m", 6, 60)));
}

#[test]
fn newer_pages_are_asked_before_older_ones() {
    let (meta, pages) = store();
    let mem = MemTable::new();
    let mut cache = LruCache::new(4);
    let mut metrics = EngineMetrics::new();
    assert_eq!(lookup(&meta, &mem, &pages, &mut cache, &mut metrics, "k", u64::MAX), Some(rec("k", 8, 80)));
    assert_eq!(metrics.pages_read_from_disk, 1);
    assert_eq!(lookup(&meta, &mem, &pages, &mut cache, &mut metrics, "k", 7), Some(rec("k", 5, 50)));
    assert_eq!(lookup(&meta, &mem, &pages, &mut cache, &mut metrics, "k", 4), Some(rec("k", 2, 20)));
    assert_eq!(lookup(&meta, &mem, &pages, &mut cache, &mut metrics, "k", 1), None);
    // a tombstone in a newer page hides the older version
    assert_eq!(lookup(&meta, &mem, &pages, &mut cache, &mut metrics, "a", u64::MAX), None);
    assert_eq!(lookup(&meta, &mem, &pages, &mut cache, &mut metrics, "a", 6), Some(rec("a", 1, 10)));
    assert_eq!(lookup(&meta, &mem, &pages, &mut cache, &mut metrics, "z", u64::MAX), Some(rec("z", 3, 30)));
    assert_eq!(lookup(&meta, &mem, &pages, &mut cache, &mut metrics, "nothing", u64::MAX), None);
    assert_eq!(lookup(&meta, &mem, &pages, &mut cache, &mut metrics, "b", u64::MAX), None);
}

#[test]
fn the_lookup_stops_where_the_cache_has_no_page() {
    let (meta, pages) = store();
    let mem = MemTable::new();
    let reader = Reader::new();
    let mut cache = LruCache::new(4);
    let mut metrics = EngineMetrics::new();
    // "k" lies in the range of the newer page of level zero, which stands last
    let step = reader.get(&meta, &mem, "k", 4, &mut cache, &mut metrics);
    assert_eq!(step, ReadStep::NeedPage { level: 0, offset: 0 });
    assert_eq!(metrics.page_cache_misses, 1);
    assert_eq!(metrics.page_cache_hits, 0);
    assert_eq!(reader.page_at(&meta, 0, 0).unwrap().page_id, 2);
    let step = reader.resume(&meta, "k", 4, &mut cache, &mut metrics, 0, 0, 2, pages[2].clone());
    assert_eq!(step, ReadStep::NeedPage { level: 0, offset: 1 });
    assert_eq!(reader.page_at(&meta, 0, 1).unwrap().page_id, 1);
    let step = reader.resume(&meta, "k", 4, &mut cache, &mut metrics, 0, 1, 1, pages[1].clone());
    assert_eq!(step, ReadStep::NeedPage { level: 1, offset: 0 });
    let step = reader.resume(&meta, "k", 4, &mut cache, &mut metrics, 1, 0, 0, pages[0].clone());
    assert_eq!(step, ReadStep::Found(rec("k", 2, 20)));
    assert_eq!(metrics.pages_read_from_disk, 3);
    assert_eq!(metrics.page_cache_misses, 3);
    assert_eq!(cache.len(), 3);
    // the second time the cache carries the whole lookup
    let step = reader.get(&meta, &mem, "k", 4, &mut cache, &mut metrics);
    assert_eq!(step, ReadStep::Found(rec("k", 2, 20)));
    assert_eq!(metrics.page_cache_hits, 3);
    assert_eq!(metrics.page_cache_misses, 3);
    assert_eq!(metrics.pages_read_from_disk, 3);
    assert_eq!(metrics.reads, 2);
    assert_eq!(reader.page_at(&meta, 2, 0), None);
    assert_eq!(reader.page_at(&meta, 1, 1), None);
}

#[test]
fn pages_whose_range_does_not_hold_the_key_are_not_read() {
    let (meta, pages) = store();
    let mem = MemTable::new();
    let mut cache = LruCache::new(4);
    let mut metrics = EngineMetrics::new();
    // "z" is outside the two pages of level zero
    assert_eq!(lookup(&meta, &mem, &pages, &mut cache, &mut metrics, "z", u64::MAX), Some(rec("z", 3, 30)));
    assert_eq!(metrics.pages_read_from_disk, 1);
    assert_eq!(metrics.page_cache_misses, 1);
    assert_eq!(cache.len(), 1);
}

#[test]
fn a_small_cache_evicts() {
    let (meta, pages) = store();
    let mem = MemTable::new();
    let mut cache = LruCache::new(1);
    let mut metrics = EngineMetrics::new();
    assert_eq!(lookup(&meta, &mem, &pages, &mut cache, &mut metrics, "k", 4), Some(rec("k", 2, 20)));
    assert_eq!(metrics.pages_read_from_disk, 3);
    assert_eq!(metrics.page_cache_evictions, 2);
    assert_eq!(cache.len(), 1);
}
