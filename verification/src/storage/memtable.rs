//! The memtable: the in-memory buffer that takes every write before it is
//! flushed.
//!
//! The memtable is modelled as the list of the records it holds, in the
//! order of their ids, the versions of one id in the order in which they were
//! put. This is the order in which a flush walks it.

use vstd::prelude::*;
use crate::keys::{key_same, lemma_key_le_transitive, lemma_key_lt_total, key_le};
use crate::storage::page::builder::{
    clip, lemma_payload_len_empty, lemma_payload_len_push, payload_len,
};
use crate::storage::record::{enc_record, records_view, Record, RecordModel};
use crate::storage::versions::{
    find_latest, latest_visible, lemma_versions_insert, sorted_by_id, upper_bound, versions_of,
};

verus! {

/// What a reader at the snapshot is given for a key: the version it sees,
/// unless that version is a tombstone.
pub open spec fn visible_value(vs: Seq<RecordModel>, snapshot: u64) -> Option<RecordModel> {
    match latest_visible(vs, snapshot) {
        Some(r) => if r.is_tombstone {
            None
        } else {
            Some(r)
        },
        None => None,
    }
}

/// The number of places in the list at which a new id begins.
pub open spec fn key_count(rs: Seq<RecordModel>) -> nat
    decreases rs.len(),
{
    if rs.len() == 0 {
        0
    } else if rs.len() == 1 || rs[rs.len() - 2].id != rs.last().id {
        key_count(rs.drop_last()) + 1
    } else {
        key_count(rs.drop_last())
    }
}

/// The sum of the encoded lengths of the records.
pub open spec fn records_size(rs: Seq<RecordModel>) -> int {
    payload_len(rs) - 8
}

/// The list with `x` put in after the last record whose id is not after
/// `x.id`.
pub open spec fn put_position(rs: Seq<RecordModel>, id: Seq<char>) -> int
    decreases rs.len(),
{
    if rs.len() == 0 || !key_le(rs[0].id, id) {
        0
    } else {
        1 + put_position(rs.drop_first(), id)
    }
}

/// `put_position` points into the list or just behind it.
pub proof fn lemma_put_position_bounds(rs: Seq<RecordModel>, id: Seq<char>)
    ensures
        0 <= put_position(rs, id) <= rs.len(),
    decreases rs.len(),
{
    if !(rs.len() == 0 || !key_le(rs[0].id, id)) {
        lemma_put_position_bounds(rs.drop_first(), id);
    }
}

/// Where `put_position` points in a sorted list.
pub proof fn lemma_put_position(rs: Seq<RecordModel>, id: Seq<char>, p: int)
    requires
        0 <= p <= rs.len(),
        forall|j: int| 0 <= j < p ==> key_le((#[trigger] rs[j]).id, id),
        p == rs.len() || !key_le(rs[p].id, id),
    ensures
        put_position(rs, id) == p,
    decreases rs.len(),
{
    if p > 0 {
        let tail = rs.drop_first();
        assert forall|j: int| 0 <= j < p - 1 implies key_le((#[trigger] tail[j]).id, id) by {
            assert(tail[j] == rs[j + 1]);
        }
        if p - 1 < tail.len() {
            assert(tail[p - 1] == rs[p]);
        }
        assert(key_le(rs[0].id, id));
        lemma_put_position(tail, id, p - 1);
    }
}

/// The in-memory write buffer.
#[derive(Debug)]
pub struct MemTable {
    records: Vec<Record>,
    size: usize,
}

impl View for MemTable {
    type V = Seq<RecordModel>;

    closed spec fn view(&self) -> Seq<RecordModel> {
        records_view(self.records@)
    }
}

impl MemTable {
    #[verifier::type_invariant]
    spec fn well_formed(self) -> bool {
        &&& sorted_by_id(records_view(self.records@))
        &&& self.size == clip(records_size(records_view(self.records@)))
    }

    /// An empty memtable.
    pub fn new() -> (m: Self)
        ensures
            m@ == Seq::<RecordModel>::empty(),
    {
        proof {
            lemma_payload_len_empty();
            assert(records_view(Seq::<Record>::empty()) =~= Seq::<RecordModel>::empty());
        }
        MemTable { records: Vec::new(), size: 0 }
    }

    /// Adds a version: the record becomes the last version of its id, and
    /// the versions of every other id stay as they are.
    pub fn put(&mut self, record: Record)
        ensures
            final(self)@ == old(self)@.insert(put_position(old(self)@, record@.id), record@),
            sorted_by_id(old(self)@),
            sorted_by_id(final(self)@),
            forall|id: Seq<char>| #[trigger]
                versions_of(final(self)@, id) == if id == record@.id {
                    versions_of(old(self)@, id).push(record@)
                } else {
                    versions_of(old(self)@, id)
                },
    {
        proof {
            use_type_invariant(&*self);
        }
        let mut taken = MemTable::new();
        std::mem::swap(self, &mut taken);
        let old_size = taken.size;
        let mut records = taken.records;
        let ghost before = records_view(records@);
        let p = upper_bound(&records, record.id.as_str());
        let len = record.encode().len();
        let size = if len > usize::MAX - old_size {
            usize::MAX
        } else {
            old_size + len
        };
        let ghost x = record@;
        records.insert(p, record);
        proof {
            let after = records_view(records@);
            assert(after =~= before.insert(p as int, x));
            if p < before.len() {
                lemma_key_lt_total(x.id, before[p as int].id);
            }
            lemma_put_position(before, x.id, p as int);
            assert forall|i: int, j: int| 0 <= i < j < after.len() implies key_le(
                #[trigger] after[i].id,
                #[trigger] after[j].id,
            ) by {
                if j < p {
                    assert(after[i] == before[i] && after[j] == before[j]);
                } else if j == p {
                    assert(after[i] == before[i]);
                } else if i == p {
                    assert(after[j] == before[j - 1]);
                    lemma_key_lt_total(x.id, before[j - 1].id);
                } else if i < p {
                    assert(after[i] == before[i] && after[j] == before[j - 1]);
                } else {
                    assert(after[i] == before[i - 1] && after[j] == before[j - 1]);
                }
            }
            assert forall|j: int| p <= j < before.len() implies (#[trigger] before[j]).id
                != x.id by {
                lemma_key_lt_total(x.id, before[j].id);
            }
            assert forall|id: Seq<char>| #[trigger]
                versions_of(after, id) == if id == x.id {
                    versions_of(before, id).push(x)
                } else {
                    versions_of(before, id)
                } by {
                lemma_versions_insert(before, p as int, x, id);
            }
            lemma_records_size_insert(before, p as int, x);
        }
        *self = MemTable { records, size };
    }

    /// The version of `id` that a reader at the snapshot sees: of the
    /// versions with a seqno not above the snapshot, the one with the largest
    /// seqno, be it a tombstone or not.
    pub fn latest(&self, id: &str, snapshot_seqno: u64) -> (r: Option<&Record>)
        ensures
            match r {
                Some(rec) => latest_visible(versions_of(self@, id@), snapshot_seqno) == Some(rec@),
                None => latest_visible(versions_of(self@, id@), snapshot_seqno) is None,
            },
    {
        proof {
            use_type_invariant(self);
        }
        let (best, _) = find_latest(&self.records, id, snapshot_seqno);
        match best {
            Some(k) => Some(&self.records[k]),
            None => None,
        }
    }

    /// The record that a reader at the snapshot is given for `id`: the
    /// version it sees, unless that is a tombstone.
    pub fn get(&self, id: &str, snapshot_seqno: u64) -> (r: Option<&Record>)
        ensures
            match r {
                Some(rec) => visible_value(versions_of(self@, id@), snapshot_seqno) == Some(rec@),
                None => visible_value(versions_of(self@, id@), snapshot_seqno) is None,
            },
    {
        match self.latest(id, snapshot_seqno) {
            Some(rec) => if rec.is_tombstone {
                None
            } else {
                Some(rec)
            },
            None => None,
        }
    }

    /// The number of keys that have a version.
    pub fn len(&self) -> (n: usize)
        ensures
            n == key_count(self@),
    {
        let ghost all = records_view(self.records@);
        let mut n: usize = 0;
        let mut i: usize = 0;
        proof {
            assert(all.take(0) =~= Seq::<RecordModel>::empty());
        }
        while i < self.records.len()
            invariant
                0 <= i <= self.records@.len(),
                all == records_view(self.records@),
                n == key_count(all.take(i as int)),
                n <= i,
            decreases self.records@.len() - i,
        {
            proof {
                let next = all.take(i + 1);
                assert(next.drop_last() =~= all.take(i as int));
                assert(next.last() == all[i as int]);
                if i > 0 {
                    assert(next[next.len() - 2] == all[i - 1]);
                }
            }
            if i == 0 || !key_same(self.records[i - 1].id.as_str(), self.records[i].id.as_str()) {
                n += 1;
            }
            i += 1;
        }
        proof {
            assert(all.take(i as int) =~= all);
        }
        n
    }

    /// Whether the memtable holds no record.
    pub fn is_empty(&self) -> (r: bool)
        ensures
            r == (self@.len() == 0),
    {
        self.records.len() == 0
    }

    /// The records held, in the order of their ids, the versions of one id
    /// in the order in which they were put.
    pub fn records(&self) -> (r: &Vec<Record>)
        ensures
            records_view(r@) == self@,
            sorted_by_id(self@),
    {
        proof {
            use_type_invariant(self);
        }
        &self.records
    }

    /// An estimate of the memory held: the sum of the encoded lengths of the
    /// records, capped at `usize::MAX`.
    pub fn approx_size_bytes(&self) -> (n: usize)
        ensures
            n == clip(records_size(self@)),
    {
        proof {
            use_type_invariant(self);
        }
        self.size
    }

    /// Forgets every record.
    pub fn clear(&mut self)
        ensures
            final(self)@ == Seq::<RecordModel>::empty(),
    {
        *self = MemTable::new();
    }
}

/// One record more adds its encoded length, wherever it is put in.
pub proof fn lemma_records_size_insert(rs: Seq<RecordModel>, p: int, x: RecordModel)
    requires
        0 <= p <= rs.len(),
    ensures
        records_size(rs.insert(p, x)) == records_size(rs) + enc_record(x).len(),
        records_size(rs) >= 0,
    decreases rs.len() - p,
{
    lemma_payload_len_push(rs, x);
    if p == rs.len() {
        assert(rs.insert(p, x) =~= rs.push(x));
    } else {
        let front = rs.drop_last();
        let last = rs.last();
        lemma_records_size_insert(front, p, x);
        assert(rs.insert(p, x) =~= front.insert(p, x).push(last));
        assert(rs =~= front.push(last));
        lemma_payload_len_push(front.insert(p, x), last);
        lemma_payload_len_push(front, last);
    }
}

} // verus!
