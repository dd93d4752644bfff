// The engine end to end, with a map from file names to bytes in the place of
// the data directory.

use std::collections::BTreeMap;

use shunyadb::cache::lru::LruCache;
use shunyadb::engine::metrics::EngineMetrics;
use shunyadb::engine::reader::{ReadStep, Reader};
use shunyadb::engine::recovery::recover;
use shunyadb::engine::seqno::{advance_to, current, SeqNo};
use shunyadb::engine::writer::Writer;
use shunyadb::lsm::compaction::execute_l0_to_l1;
use shunyadb::lsm::compaction_plan::plan_l0_to_l1;
use shunyadb::meta::{maybe_checkpoint_wal, TableMeta};
use shunyadb::storage::fields::FieldMap;
use shunyadb::storage::memtable::MemTable;
use shunyadb::storage::page::builder::Page;
use shunyadb::storage::page::reader::read_page;
use shunyadb::storage::record::{FieldValue, Record};
use shunyadb::storage::wal::Wal;

#[derive(Clone, Default)]
struct Disk {
    wal: Vec<u8>,
    manifest: Option<TableMeta>,
    pages: BTreeMap<String, Vec<u8>>,
}

struct Engine {
    disk: Disk,
    seq: SeqNo,
    wal: Wal,
    memtable: MemTable,
    meta: TableMeta,
    cache: LruCache<Page>,
    metrics: EngineMetrics,
    reader: Reader,
    writer: Writer,
}

impl Engine {
    fn open(disk: Disk) -> Engine {
        let mut engine = Engine {
            wal: Wal::from_bytes(disk.wal.clone()),
            meta: disk.manifest.clone().unwrap_or_else(TableMeta::new),
            disk,
            seq: SeqNo::new(),
            memtable: MemTable::new(),
            cache: LruCache::new(64),
            metrics: EngineMetrics::new(),
            reader: Reader::new(),
            writer: Writer::new(),
        };
        let pages = recover(
            &engine.wal,
            &mut engine.memtable,
            &engine.writer,
            &mut engine.meta,
            &mut engine.seq,
        )
        .expect("recovery failed");
        let first = engine.meta.level[0].len() - pages.len();
        for (i, page) in pages.iter().enumerate() {
            let name = engine.meta.level[0][first + i].file_name.clone();
            engine.write_page(&name, page);
        }
        engine.persist();
        engine.checkpoint();
        engine
    }

    fn write_page(&mut self, name: &str, page: &Page) {
        assert!(!self.disk.pages.contains_key(name), "pages are written once");
        self.disk.pages.insert(name.to_string(), page.to_bytes());
    }

    fn persist(&mut self) {
        self.disk.manifest = Some(self.meta.clone());
    }

    fn checkpoint(&mut self) {
        if maybe_checkpoint_wal(&mut self.meta, &mut self.wal).expect("log is corrupt") {
            self.disk.wal = self.wal.as_bytes().clone();
            self.metrics.wal_rewrites += 1;
            self.persist();
        }
    }

    fn put(&mut self, id: &str, fields: FieldMap) {
        let entry = self.writer.prepare_put(&mut self.seq, id, fields);
        self.disk.wal.extend(entry.frame());
        self.metrics.wal_appends += 1;
        self.writer.apply(&mut self.memtable, &mut self.wal, entry);
        self.metrics.writes += 1;
        if self.writer.needs_flush(&self.memtable) {
            self.flush();
        }
    }

    fn delete(&mut self, id: &str) {
        let entry = self.writer.prepare_delete(&mut self.seq, id);
        self.disk.wal.extend(entry.frame());
        self.metrics.wal_appends += 1;
        self.writer.apply(&mut self.memtable, &mut self.wal, entry);
        self.metrics.writes += 1;
        if self.writer.needs_flush(&self.memtable) {
            self.flush();
        }
    }

    fn flush(&mut self) {
        if self.memtable.is_empty() {
            return;
        }
        let built = self.writer.flush_pages(&self.memtable, self.meta.current_page_id);
        for (m, page) in built.metas.iter().zip(built.pages.iter()) {
            let name = m.file_name.clone();
            self.write_page(&name, page);
        }
        self.meta.add_pages(built.metas);
        self.meta.current_page_id = built.next_page_id;
        self.persist();
        self.memtable.clear();
        self.metrics.flushes += 1;
        self.checkpoint();
    }

    fn maybe_compact(&mut self) -> bool {
        let plan = match plan_l0_to_l1(&self.meta) {
            Some(plan) => plan,
            None => return false,
        };
        let read = |disk: &Disk, name: &str| read_page(&disk.pages[name]).expect("page is corrupt");
        let l0: Vec<Page> = plan.input_l0_pages.iter().map(|m| read(&self.disk, &m.file_name)).collect();
        let l1: Vec<Page> = plan.input_l1_pages.iter().map(|m| read(&self.disk, &m.file_name)).collect();
        let built = execute_l0_to_l1(&plan, &l0, &l1);
        for (m, page) in built.metas.iter().zip(built.pages.iter()) {
            let name = m.file_name.clone();
            self.write_page(&name, page);
        }
        self.meta.install_compaction(built.metas, built.next_page_id);
        self.checkpoint();
        self.persist();
        for m in plan.input_l0_pages.iter().chain(plan.input_l1_pages.iter()) {
            self.disk.pages.remove(&m.file_name);
        }
        self.metrics.compactions += 1;
        true
    }

    fn get(&mut self, id: &str, snapshot: u64) -> Option<Record> {
        let mut step =
            self.reader.get(&self.meta, &self.memtable, id, snapshot, &mut self.cache, &mut self.metrics);
        loop {
            match step {
                ReadStep::Found(r) => return Some(r),
                ReadStep::NotPresent => return None,
                ReadStep::NeedPage { level, offset } => {
                    let m = self.reader.page_at(&self.meta, level, offset).unwrap();
                    let page = read_page(&self.disk.pages[&m.file_name]).expect("page is corrupt");
                    step = self.reader.resume(
                        &self.meta,
                        id,
                        snapshot,
                        &mut self.cache,
                        &mut self.metrics,
                        level,
                        offset,
                        m.page_id,
                        page,
                    );
                }
            }
        }
    }

    // what is on disk when the process dies
    fn crash(self) -> Disk {
        self.disk
    }
}

fn value(text: String) -> FieldMap {
    let mut m = FieldMap::new();
    m.insert("value", FieldValue::Str(text));
    m
}

fn sample_value(v: &str) -> FieldMap {
    let mut m = FieldMap::new();
    m.insert("val", FieldValue::Str(v.to_string()));
    m
}

fn assert_manifest_matches_files(engine: &Engine) {
    let mut named: Vec<String> =
        engine.meta.level.iter().flatten().map(|m| m.file_name.clone()).collect();
    named.sort();
    let on_disk: Vec<String> = engine.disk.pages.keys().cloned().collect();
    assert_eq!(named, on_disk);
    for level in &engine.meta.level {
        for m in level {
            let page = read_page(&engine.disk.pages[&m.file_name]).unwrap();
            assert_eq!(page.header.min_id, m.min_id);
            assert_eq!(page.header.max_id, m.max_id);
            assert_eq!(page.header.num_records as usize, m.number_of_records);
            assert_eq!(page.header.page_seqno, m.max_seqno);
            assert_eq!(engine.disk.pages[&m.file_name].len() as u64, m.size_bytes);
        }
    }
}

#[test]
fn wal_recovery_works() {
    let disk = {
        let mut engine = Engine::open(Disk::default());
        engine.put("1", sample_value("a"));
        engine.put("1", sample_value("b"));
        engine.flush();
        engine.crash()
    };

    let mut engine = Engine::open(disk);
    let snapshot = current(&engine.seq);

    let rec = engine.get("1", snapshot).unwrap();
    assert_eq!(rec.data.get("val").unwrap(), &FieldValue::Str("b".to_string()));
    assert_eq!(engine.get("1", u64::MAX).unwrap().get("val"), Some(&FieldValue::Str("b".to_string())));
}

#[test]
fn recovery_without_a_flush_replays_the_log() {
    let mut engine = Engine::open(Disk::default());
    engine.put("1", sample_value("a"));
    let first = current(&engine.seq);
    engine.put("2", sample_value("b"));
    engine.delete("1");
    let last = current(&engine.seq);
    assert_eq!(last, first + 2);
    let disk = engine.crash();
    assert!(disk.manifest.as_ref().unwrap().level[0].is_empty());
    let mut engine = Engine::open(disk);
    assert_eq!(engine.get("1", u64::MAX), None);
    assert_eq!(engine.get("2", u64::MAX).unwrap().get("val"), Some(&FieldValue::Str("b".to_string())));
    assert_eq!(engine.get("1", first).unwrap().get("val"), Some(&FieldValue::Str("a".to_string())));
    assert_eq!(engine.get("1", first - 1), None);
    assert_manifest_matches_files(&engine);
    // the seqnos go on above what was stored
    assert_eq!(current(&engine.seq), last + 1);
    engine.put("3", sample_value("c"));
    assert!(engine.get("3", u64::MAX).unwrap().seqno > last);
}

#[test]
fn tombstone_semantics() {
    let mut engine = Engine::open(Disk::default());
    advance_to(&mut engine.seq, 4);
    engine.put("k", sample_value("v1"));
    advance_to(&mut engine.seq, 7);
    engine.put("k", sample_value("v2"));
    advance_to(&mut engine.seq, 9);
    engine.delete("k");
    assert_eq!(current(&engine.seq), 10);
    let check = |engine: &mut Engine| {
        assert_eq!(engine.get("k", 4), None);
        assert_eq!(engine.get("k", 6).unwrap().get("val"), Some(&FieldValue::Str("v1".to_string())));
        assert_eq!(engine.get("k", 6).unwrap().seqno, 5);
        assert_eq!(engine.get("k", 9).unwrap().get("val"), Some(&FieldValue::Str("v2".to_string())));
        assert_eq!(engine.get("k", 9).unwrap().seqno, 8);
        assert_eq!(engine.get("k", u64::MAX), None);
    };
    check(&mut engine);
    engine.flush();
    check(&mut engine);
    assert!(!engine.maybe_compact());
    check(&mut engine);
    let mut engine = Engine::open(engine.crash());
    check(&mut engine);
}

#[test]
fn persist_1000_entries_to_disk() {
    let mut engine = Engine::open(Disk::default());

    for i in 0..1000 {
        engine.put(&i.to_string(), value(format!("val_{}", i)));
    }

    let snap_before_flush = current(&engine.seq);

    engine.flush();

    assert!(engine.disk.manifest.is_some());
    let page_count = engine.disk.pages.keys().filter(|name| name.starts_with("page_")).count();
    assert!(page_count > 0, "no pages written to disk");

    // Verify reads still work after flush
    for i in 0..1000 {
        let rec = engine.get(&i.to_string(), snap_before_flush).expect("missing record");
        let v = rec.data.get("value").unwrap();
        assert_eq!(v, &FieldValue::Str(format!("val_{}", i)));
    }
}

fn engine_with_1000_entries() -> Engine {
    let mut engine = Engine::open(Disk::default());
    for i in 0..1000 {
        engine.put(&i.to_string(), value(format!("val_{}", i)));
    }
    engine.flush();
    engine
}

#[test]
fn restart_engine_reads_from_disk() {
    let disk = engine_with_1000_entries().crash();

    // Restart (new Engine instance)
    let mut engine = Engine::open(disk);

    let snapshot = current(&engine.seq);

    for i in 0..1000 {
        let rec = engine.get(&i.to_string(), snapshot).expect("record missing after restart");
        let v = rec.data.get("value").unwrap();
        assert_eq!(v, &FieldValue::Str(format!("val_{}", i)));
    }
    assert!(!engine.meta.level[0].is_empty());
    assert_manifest_matches_files(&engine);
}

#[test]
fn update_and_delete_after_restart() {
    let mut engine = Engine::open(engine_with_1000_entries().crash());

    // Update half
    for i in 0..500 {
        engine.put(&i.to_string(), value(format!("val_{}", i + 10_000)));
    }

    // Delete quarter
    for i in 500..750 {
        engine.delete(&i.to_string());
    }

    let snap = current(&engine.seq);
    engine.flush();

    // Restart again
    let mut engine = Engine::open(engine.crash());

    // Updated records
    for i in 0..500 {
        let rec = engine.get(&i.to_string(), snap).unwrap();
        let v = rec.data.get("value").unwrap();
        assert_eq!(v, &FieldValue::Str(format!("val_{}", i + 10_000)));
    }

    // Deleted records
    for i in 500..750 {
        assert!(engine.get(&i.to_string(), snap).is_none());
    }

    // Untouched records
    for i in 750..1000 {
        let rec = engine.get(&i.to_string(), snap).unwrap();
        let v = rec.data.get("value").unwrap();
        assert_eq!(v, &FieldValue::Str(format!("val_{}", i)));
    }
}

#[test]
fn compaction_reduces_l0_pages() {
    let mut engine = Engine::open(Disk::default());

    // Force many flushes
    for i in 0..5000 {
        engine.put(&i.to_string(), value(i.to_string()));
    }

    engine.flush();
    assert!(engine.meta.level[0].len() >= 8);
    assert!(engine.maybe_compact());

    let l0_pages = engine.meta.level[0].len();
    let l1_pages = engine.meta.level[1].len();

    assert!(l0_pages < 8, "L0 should be reduced after compaction");
    assert_eq!(l0_pages, 0);
    assert!(l1_pages > 0, "compaction should produce L1 pages");
    assert!(engine.metrics.compactions > 0, "compaction metric should increment");

    let l1 = &engine.meta.level[1];
    for i in 0..l1.len() {
        for j in 0..l1.len() {
            if i != j {
                assert!(!l1[i].overlaps(&l1[j]));
            }
        }
    }
    assert_manifest_matches_files(&engine);
    for i in 0..5000 {
        let rec = engine.get(&i.to_string(), u64::MAX).unwrap();
        assert_eq!(rec.get("value"), Some(&FieldValue::Str(i.to_string())));
    }
    // with no trigger, compaction does nothing
    let before = engine.meta.clone();
    let files = engine.disk.pages.clone();
    assert!(!engine.maybe_compact());
    assert_eq!(engine.meta, before);
    assert_eq!(engine.disk.pages, files);
}

#[test]
fn compaction_and_wal_checkpoint_are_safe() {
    // 1. Create engine
    let mut engine = Engine::open(Disk::default());

    // 2. Write enough entries to trigger flush and advance WAL seqnos
    let total = 2_000;

    for i in 0..total {
        engine.put(&i.to_string(), value(format!("value_{}", i)));
    }

    // 3. Force durability boundaries
    engine.flush();
    engine.maybe_compact();

    // Capture checkpoint
    let checkpoint = engine.meta.checkpoint_seqno;

    // 4. Drop engine (simulate crash)
    let disk = engine.crash();

    // 5. Restart engine (recovery path)
    let mut engine = Engine::open(disk);
    let snapshot = current(&engine.seq);

    // 6. Verify ALL data is present
    for i in 0..total {
        let record = engine.get(&i.to_string(), snapshot);
        assert!(record.is_some(), "missing record after restart for key={}", i);

        let record = record.unwrap();
        let value = record.data.get("value").expect("missing 'value' field");

        assert_eq!(
            value.clone(),
            FieldValue::Str(format!("value_{}", i)),
            "incorrect value after restart for key={}",
            i
        );
    }

    // 7. Sanity check: checkpoint should not regress
    assert!(engine.meta.checkpoint_seqno >= checkpoint, "checkpoint_seqno regressed after restart");
    assert_manifest_matches_files(&engine);
}

#[test]
fn writes_trigger_flush_reasonably() {
    let mut engine = Engine::open(Disk::default());

    let writes = 2000;

    for i in 0..writes {
        engine.put(&i.to_string(), value(i.to_string()));
    }

    assert!(engine.metrics.flushes > 0, "writes should trigger memtable flushes");
    assert!(engine.metrics.wal_appends >= writes as u64, "each write should append to WAL");
}

#[test]
fn page_cache_reduces_disk_reads() {
    let mut engine = Engine::open(Disk::default());

    // Insert data
    for i in 0..1000 {
        engine.put(&i.to_string(), value(i.to_string()));
    }

    engine.flush();
    engine.maybe_compact();

    // First read pass
    for i in 0..1000 {
        engine.get(&i.to_string(), u64::MAX);
    }

    let disk_reads_after_first = engine.metrics.pages_read_from_disk;
    let cache_hits_after_first = engine.metrics.page_cache_hits;

    assert!(disk_reads_after_first > 0);
    assert!(cache_hits_after_first > 0);

    // Second read pass
    for i in 0..1000 {
        engine.get(&i.to_string(), u64::MAX);
    }

    let disk_reads_after_second = engine.metrics.pages_read_from_disk;
    let cache_hits_after_second = engine.metrics.page_cache_hits;

    // Cache hits must increase
    assert!(cache_hits_after_second > cache_hits_after_first, "cache hits should increase on repeated reads");

    // Disk reads should grow much slower on second pass
    let first_pass_disk_reads = disk_reads_after_first;
    let second_pass_disk_reads = disk_reads_after_second - disk_reads_after_first;

    assert!(
        second_pass_disk_reads < first_pass_disk_reads / 2 + 1,
        "disk reads should significantly reduce after cache warmup"
    );
    assert_eq!(second_pass_disk_reads, 0);
}

#[test]
fn rough_put_throughput() {
    let mut engine = Engine::open(Disk::default());

    for i in 0..10_000 {
        engine.put(&i.to_string(), value(i.to_string()));
    }
    assert_eq!(engine.metrics.writes, 10_000);
    assert_eq!(engine.get("9999", u64::MAX).unwrap().get("value"), Some(&FieldValue::Str("9999".into())));
}

#[test]
fn recovery_twice_changes_nothing_once_the_log_is_absorbed() {
    let mut engine = Engine::open(Disk::default());
    for i in 0..100 {
        engine.put(&i.to_string(), value(i.to_string()));
    }
    engine.flush();
    let once = Engine::open(engine.crash()).crash();
    let manifest = once.manifest.clone();
    let files = once.pages.clone();
    let log = once.wal.clone();
    let twice = Engine::open(once).crash();
    assert_eq!(twice.manifest, manifest);
    assert_eq!(twice.pages, files);
    assert_eq!(twice.wal, log);
}

#[test]
fn a_crash_between_flush_and_checkpoint_loses_nothing() {
    let mut engine = Engine::open(Disk::default());
    for i in 0..50 {
        engine.put(&i.to_string(), value(i.to_string()));
    }
    // the pages are written and the manifest is persisted, the log is not cut
    let built = engine.writer.flush_pages(&engine.memtable, engine.meta.current_page_id);
    for (m, page) in built.metas.iter().zip(built.pages.iter()) {
        let name = m.file_name.clone();
        engine.write_page(&name, page);
    }
    engine.meta.add_pages(built.metas);
    engine.meta.current_page_id = built.next_page_id;
    engine.persist();
    let mut engine = Engine::open(engine.crash());
    for i in 0..50 {
        assert_eq!(engine.get(&i.to_string(), u64::MAX).unwrap().get("value"), Some(&FieldValue::Str(i.to_string())));
    }
    assert_manifest_matches_files(&engine);
}

// a small generator of numbers that looks random and is the same on every run
struct Lcg(u64);

impl Lcg {
    fn next(&mut self, bound: u64) -> u64 {
        self.0 = self.0.wrapping_mul(6364136223846793005).wrapping_add(1442695040888963407);
        (self.0 >> 33) % bound
    }
}

#[test]
fn the_latest_state_survives_any_mix_of_operations() {
    for seed in 0..6u64 {
        let mut rng = Lcg(seed);
        let mut engine = Engine::open(Disk::default());
        let mut model: BTreeMap<String, Option<String>> = BTreeMap::new();
        let keys = 40 + seed * 37;
        for step in 0..3000u64 {
            let id = format!("key{}", rng.next(keys));
            match rng.next(100) {
                0..=59 => {
                    // long values fill pages quickly
                    let text = format!("{}-{}", step, "v".repeat(rng.next(400) as usize));
                    engine.put(&id, value(text.clone()));
                    model.insert(id, Some(text));
                }
                60..=79 => {
                    engine.delete(&id);
                    model.insert(id, None);
                }
                80..=84 => engine.flush(),
                85..=89 => {
                    engine.maybe_compact();
                }
                90..=92 => {
                    engine = Engine::open(engine.crash());
                }
                _ => {
                    let expected = model.get(&id).cloned().flatten();
                    let got = engine.get(&id, u64::MAX).map(|r| match r.get("value") {
                        Some(FieldValue::Str(s)) => s.clone(),
                        other => panic!("unexpected field {:?}", other),
                    });
                    assert_eq!(got, expected, "seed {} step {} key {}", seed, step, id);
                }
            }
        }
        engine.flush();
        engine.maybe_compact();
        let mut engine = Engine::open(engine.crash());
        assert_manifest_matches_files(&engine);
        let l1 = engine.meta.level[1].clone();
        for i in 0..l1.len() {
            for j in 0..l1.len() {
                if i != j {
                    assert!(!l1[i].overlaps(&l1[j]));
                }
            }
        }
        for (id, expected) in &model {
            let got = engine.get(id, u64::MAX).map(|r| match r.get("value") {
                Some(FieldValue::Str(s)) => s.clone(),
                other => panic!("unexpected field {:?}", other),
            });
            assert_eq!(&got, expected, "seed {} key {}", seed, id);
        }
    }
}

#[test]
fn snapshots_are_served_until_a_compaction_collapses_the_versions() {
    let mut rng = Lcg(99);
    let mut engine = Engine::open(Disk::default());
    // every write: key, seqno, value or tombstone
    let mut writes: Vec<(String, u64, Option<String>)> = Vec::new();
    for step in 0..1500u64 {
        let id = format!("k{}", rng.next(25));
        if rng.next(4) == 0 {
            engine.delete(&id);
            writes.push((id, current(&engine.seq), None));
        } else {
            let text = format!("{}-{}", step, "w".repeat(rng.next(300) as usize));
            engine.put(&id, value(text.clone()));
            writes.push((id, current(&engine.seq), Some(text)));
        }
        if rng.next(50) == 0 {
            engine.flush();
        }
        if rng.next(200) == 0 {
            engine = Engine::open(engine.crash());
        }
    }
    let last = current(&engine.seq);
    for _ in 0..2000 {
        let id = format!("k{}", rng.next(25));
        let snapshot = rng.next(last + 2);
        let expected = writes
            .iter()
            .filter(|(k, s, _)| *k == id && *s <= snapshot)
            .max_by_key(|(_, s, _)| *s)
            .and_then(|(_, _, v)| v.clone());
        let got = engine.get(&id, snapshot).map(|r| match r.get("value") {
            Some(FieldValue::Str(s)) => s.clone(),
            other => panic!("unexpected field {:?}", other),
        });
        assert_eq!(got, expected, "key {} snapshot {}", id, snapshot);
    }
}
