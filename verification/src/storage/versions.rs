//! Versions of a key, and which of them a reader sees.
//!
//! A key may have many versions. A reader with snapshot `s` sees, of each
//! key, the version with the largest seqno that is not above `s`.

use vstd::prelude::*;
use crate::keys::{
    key_before, key_le, key_lt, key_same, lemma_key_le_lt, lemma_key_le_transitive,
    lemma_key_lt_le, lemma_key_lt_total,
};
use crate::storage::record::{Record, RecordModel, records_view};

verus! {

/// The records of `rs` with the given id, in the order in which they stand.
pub open spec fn versions_of(rs: Seq<RecordModel>, id: Seq<char>) -> Seq<RecordModel>
    decreases rs.len(),
{
    if rs.len() == 0 {
        Seq::empty()
    } else {
        let front = versions_of(rs.drop_last(), id);
        if rs.last().id == id {
            front.push(rs.last())
        } else {
            front
        }
    }
}

/// Of the versions with a seqno not above the snapshot, the one with the
/// largest seqno; of several with that seqno, the one that stands last.
pub open spec fn latest_visible(vs: Seq<RecordModel>, snapshot: u64) -> Option<RecordModel>
    decreases vs.len(),
{
    if vs.len() == 0 {
        None
    } else {
        let front = latest_visible(vs.drop_last(), snapshot);
        let x = vs.last();
        if x.seqno <= snapshot && (front is None || front->0.seqno <= x.seqno) {
            Some(x)
        } else {
            front
        }
    }
}

/// The ids do not go down.
pub open spec fn sorted_by_id(rs: Seq<RecordModel>) -> bool {
    forall|i: int, j: int| 0 <= i < j < rs.len() ==> key_le(#[trigger] rs[i].id, #[trigger] rs[j].id)
}

/// The largest seqno among the records, zero where there is none.
pub open spec fn max_seqno(rs: Seq<RecordModel>) -> u64
    decreases rs.len(),
{
    if rs.len() == 0 {
        0
    } else {
        let front = max_seqno(rs.drop_last());
        if rs.last().seqno > front {
            rs.last().seqno
        } else {
            front
        }
    }
}

/// What `latest_visible` gives: a version that is there and is not above
/// the snapshot, with no version between it and the snapshot; nothing only
/// where every version is above the snapshot.
pub proof fn lemma_latest_visible(vs: Seq<RecordModel>, snapshot: u64)
    ensures
        match latest_visible(vs, snapshot) {
            Some(r) => vs.contains(r) && r.seqno <= snapshot && forall|i: int|
                0 <= i < vs.len() && (#[trigger] vs[i]).seqno <= snapshot ==> vs[i].seqno
                    <= r.seqno,
            None => forall|i: int| 0 <= i < vs.len() ==> (#[trigger] vs[i]).seqno > snapshot,
        },
    decreases vs.len(),
{
    if vs.len() > 0 {
        let front = vs.drop_last();
        lemma_latest_visible(front, snapshot);
        let x = vs.last();
        match latest_visible(vs, snapshot) {
            Some(r) => {
                if latest_visible(front, snapshot) == Some(r) && !(x.seqno <= snapshot && (
                latest_visible(front, snapshot)->0.seqno <= x.seqno)) {
                    let k = choose|k: int| 0 <= k < front.len() && front[k] == r;
                    assert(vs[k] == r);
                } else {
                    assert(vs[vs.len() - 1] == r);
                }
                assert forall|i: int| 0 <= i < vs.len() && (#[trigger] vs[i]).seqno
                    <= snapshot implies vs[i].seqno <= r.seqno by {
                    if i < vs.len() - 1 {
                        assert(front[i] == vs[i]);
                    }
                }
            },
            None => {
                assert forall|i: int| 0 <= i < vs.len() implies (#[trigger] vs[i]).seqno
                    > snapshot by {
                    if i < vs.len() - 1 {
                        assert(front[i] == vs[i]);
                    }
                }
            },
        }
    }
}

/// The versions of a key in a list are the records of the list with that id.
pub proof fn lemma_versions_members(rs: Seq<RecordModel>, id: Seq<char>)
    ensures
        forall|i: int|
            0 <= i < versions_of(rs, id).len() ==> (#[trigger] versions_of(rs, id)[i]).id == id
                && rs.contains(versions_of(rs, id)[i]),
        forall|i: int| 0 <= i < rs.len() && (#[trigger] rs[i]).id == id ==> versions_of(rs, id).contains(rs[i]),
        versions_of(rs, id).len() <= rs.len(),
    decreases rs.len(),
{
    if rs.len() > 0 {
        let front = rs.drop_last();
        lemma_versions_members(front, id);
        let vf = versions_of(front, id);
        let v = versions_of(rs, id);
        assert forall|i: int| 0 <= i < v.len() implies (#[trigger] v[i]).id == id && rs.contains(
            v[i],
        ) by {
            if i < vf.len() {
                assert(v[i] == vf[i]);
                let k = choose|k: int| 0 <= k < front.len() && front[k] == vf[i];
                assert(rs[k] == v[i]);
            } else {
                assert(rs[rs.len() - 1] == v[i]);
            }
        }
        assert forall|i: int| 0 <= i < rs.len() && (#[trigger] rs[i]).id == id implies v.contains(
            rs[i],
        ) by {
            if i < rs.len() - 1 {
                assert(front[i] == rs[i]);
                let k = choose|k: int| 0 <= k < vf.len() && vf[k] == front[i];
                assert(v[k] == rs[i]);
            } else {
                assert(v[v.len() - 1] == rs[i]);
            }
        }
    }
}

/// The versions in two lists put together are the versions in the first,
/// then those in the second.
pub proof fn lemma_versions_add(a: Seq<RecordModel>, b: Seq<RecordModel>, id: Seq<char>)
    ensures
        versions_of(a + b, id) == versions_of(a, id) + versions_of(b, id),
    decreases b.len(),
{
    if b.len() == 0 {
        assert(a + b =~= a);
        assert(versions_of(a, id) + versions_of(b, id) =~= versions_of(a, id));
    } else {
        assert((a + b).drop_last() =~= a + b.drop_last());
        assert((a + b).last() == b.last());
        lemma_versions_add(a, b.drop_last(), id);
        assert(versions_of(a + b, id) =~= versions_of(a, id) + versions_of(b, id));
    }
}

/// A list in which no record has the id holds no version of it.
pub proof fn lemma_versions_none(rs: Seq<RecordModel>, id: Seq<char>)
    requires
        forall|i: int| 0 <= i < rs.len() ==> (#[trigger] rs[i]).id != id,
    ensures
        versions_of(rs, id) == Seq::<RecordModel>::empty(),
    decreases rs.len(),
{
    if rs.len() > 0 {
        let front = rs.drop_last();
        assert forall|i: int| 0 <= i < front.len() implies (#[trigger] front[i]).id != id by {
            assert(front[i] == rs[i]);
        }
        lemma_versions_none(front, id);
        assert(rs.last() == rs[rs.len() - 1]);
    }
}

/// A record put in before records of other ids only: it becomes the last
/// version of its id, and the versions of every other id stay.
pub proof fn lemma_versions_insert(rs: Seq<RecordModel>, p: int, x: RecordModel, id: Seq<char>)
    requires
        0 <= p <= rs.len(),
        forall|j: int| p <= j < rs.len() ==> (#[trigger] rs[j]).id != x.id,
    ensures
        versions_of(rs.insert(p, x), id) == if id == x.id {
            versions_of(rs, id).push(x)
        } else {
            versions_of(rs, id)
        },
{
    let head = rs.take(p);
    let tail = rs.skip(p);
    assert(rs.insert(p, x) =~= head.push(x) + tail);
    assert(rs =~= head + tail);
    lemma_versions_add(head.push(x), tail, id);
    lemma_versions_add(head, tail, id);
    assert(head.push(x).drop_last() =~= head);
    assert(head.push(x).last() == x);
    if id == x.id {
        assert forall|i: int| 0 <= i < tail.len() implies (#[trigger] tail[i]).id != id by {
            assert(tail[i] == rs[p + i]);
        }
        lemma_versions_none(tail, id);
        assert(versions_of(head, id).push(x) + Seq::<RecordModel>::empty() =~= versions_of(
            head,
            id,
        ).push(x));
        assert(versions_of(head, id) + Seq::<RecordModel>::empty() =~= versions_of(head, id));
    }
}

/// The largest seqno is that of some record and is below none.
pub proof fn lemma_max_seqno(rs: Seq<RecordModel>)
    ensures
        forall|i: int| 0 <= i < rs.len() ==> (#[trigger] rs[i]).seqno <= max_seqno(rs),
        rs.len() > 0 ==> exists|i: int| 0 <= i < rs.len() && (#[trigger] rs[i]).seqno == max_seqno(rs),
    decreases rs.len(),
{
    if rs.len() > 0 {
        let front = rs.drop_last();
        lemma_max_seqno(front);
        assert forall|i: int| 0 <= i < rs.len() implies (#[trigger] rs[i]).seqno <= max_seqno(
            rs,
        ) by {
            if i < rs.len() - 1 {
                assert(front[i] == rs[i]);
            }
        }
        if rs.last().seqno > max_seqno(front) || front.len() == 0 {
            assert(rs[rs.len() - 1].seqno == max_seqno(rs));
        } else {
            let k = choose|k: int| 0 <= k < front.len() && (#[trigger] front[k]).seqno
                == max_seqno(front);
            assert(rs[k].seqno == max_seqno(rs));
        }
    }
}

/// The largest seqno among the records.
pub fn max_seqno_of(records: &Vec<Record>) -> (m: u64)
    ensures
        m == max_seqno(records_view(records@)),
{
    let mut m: u64 = 0;
    let mut i: usize = 0;
    let ghost all = records_view(records@);
    proof {
        assert(all.take(0) =~= Seq::<RecordModel>::empty());
    }
    while i < records.len()
        invariant
            0 <= i <= records@.len(),
            all == records_view(records@),
            m == max_seqno(all.take(i as int)),
        decreases records@.len() - i,
    {
        proof {
            assert(all.take(i + 1).drop_last() =~= all.take(i as int));
            assert(all.take(i + 1).last() == all[i as int]);
        }
        if records[i].seqno > m {
            m = records[i].seqno;
        }
        i += 1;
    }
    proof {
        assert(all.take(i as int) =~= all);
    }
    m
}

/// A list in which every record has the id holds it whole as the versions
/// of that id.
pub proof fn lemma_versions_all(rs: Seq<RecordModel>, id: Seq<char>)
    requires
        forall|i: int| 0 <= i < rs.len() ==> (#[trigger] rs[i]).id == id,
    ensures
        versions_of(rs, id) == rs,
    decreases rs.len(),
{
    if rs.len() > 0 {
        let front = rs.drop_last();
        assert forall|i: int| 0 <= i < front.len() implies (#[trigger] front[i]).id == id by {
            assert(front[i] == rs[i]);
        }
        lemma_versions_all(front, id);
        assert(rs.last() == rs[rs.len() - 1]);
        assert(front.push(rs.last()) =~= rs);
    } else {
        assert(rs =~= Seq::<RecordModel>::empty());
    }
}

/// Where the records with the id stand together from `q` up to `p`, they
/// are the versions of the id.
pub proof fn lemma_versions_run(rs: Seq<RecordModel>, id: Seq<char>, q: int, p: int)
    requires
        0 <= q <= p <= rs.len(),
        forall|j: int| 0 <= j < q ==> (#[trigger] rs[j]).id != id,
        forall|j: int| q <= j < p ==> (#[trigger] rs[j]).id == id,
        forall|j: int| p <= j < rs.len() ==> (#[trigger] rs[j]).id != id,
    ensures
        versions_of(rs, id) == rs.subrange(q, p),
{
    let head = rs.take(q);
    let run = rs.subrange(q, p);
    let tail = rs.skip(p);
    assert(rs =~= head + run + tail);
    lemma_versions_add(head + run, tail, id);
    lemma_versions_add(head, run, id);
    assert forall|i: int| 0 <= i < head.len() implies (#[trigger] head[i]).id != id by {
        assert(head[i] == rs[i]);
    }
    assert forall|i: int| 0 <= i < tail.len() implies (#[trigger] tail[i]).id != id by {
        assert(tail[i] == rs[p + i]);
    }
    assert forall|i: int| 0 <= i < run.len() implies (#[trigger] run[i]).id == id by {
        assert(run[i] == rs[q + i]);
    }
    lemma_versions_none(head, id);
    lemma_versions_none(tail, id);
    lemma_versions_all(run, id);
    assert(Seq::<RecordModel>::empty() + run + Seq::<RecordModel>::empty() =~= run);
}

/// In a sorted list, the first position whose id is after `id`.
pub fn upper_bound(records: &Vec<Record>, id: &str) -> (p: usize)
    requires
        sorted_by_id(records_view(records@)),
    ensures
        p <= records@.len(),
        forall|j: int| 0 <= j < p ==> key_le((#[trigger] records_view(records@)[j]).id, id@),
        forall|j: int|
            p <= j < records@.len() ==> key_lt(id@, (#[trigger] records_view(records@)[j]).id),
{
    let ghost all = records_view(records@);
    let mut lo: usize = 0;
    let mut hi: usize = records.len();
    while lo < hi
        invariant
            0 <= lo <= hi <= records@.len(),
            all == records_view(records@),
            sorted_by_id(all),
            forall|j: int| 0 <= j < lo ==> key_le((#[trigger] all[j]).id, id@),
            forall|j: int| hi <= j < all.len() ==> key_lt(id@, (#[trigger] all[j]).id),
        decreases hi - lo,
    {
        let mid = lo + (hi - lo) / 2;
        if key_before(id, records[mid].id.as_str()) {
            proof {
                assert forall|j: int| mid <= j < all.len() implies key_lt(
                    id@,
                    (#[trigger] all[j]).id,
                ) by {
                    if j > mid {
                        assert(key_le(all[mid as int].id, all[j].id));
                        lemma_key_lt_le(id@, all[mid as int].id, all[j].id);
                    }
                }
            }
            hi = mid;
        } else {
            proof {
                assert forall|j: int| 0 <= j < mid + 1 implies key_le(
                    (#[trigger] all[j]).id,
                    id@,
                ) by {
                    if j < mid {
                        assert(key_le(all[j].id, all[mid as int].id));
                        lemma_key_le_transitive(all[j].id, all[mid as int].id, id@);
                    }
                }
            }
            lo = mid + 1;
        }
    }
    lo
}

/// In a sorted list, the version of `id` that a reader at `snapshot` sees,
/// by its position, and whether the list holds any version of `id`.
pub fn find_latest(records: &Vec<Record>, id: &str, snapshot: u64) -> (r: (Option<usize>, bool))
    requires
        sorted_by_id(records_view(records@)),
    ensures
        r.1 == (versions_of(records_view(records@), id@).len() > 0),
        match r.0 {
            Some(k) => k < records@.len() && latest_visible(
                versions_of(records_view(records@), id@),
                snapshot,
            ) == Some(records_view(records@)[k as int]),
            None => latest_visible(versions_of(records_view(records@), id@), snapshot) is None,
        },
{
    let ghost all = records_view(records@);
    let p = upper_bound(records, id);
    let mut q: usize = p;
    while q > 0 && key_same(records[q - 1].id.as_str(), id)
        invariant
            0 <= q <= p <= records@.len(),
            all == records_view(records@),
            forall|j: int| q <= j < p ==> (#[trigger] all[j]).id == id@,
        decreases q,
    {
        q -= 1;
    }
    proof {
        assert forall|j: int| 0 <= j < q implies (#[trigger] all[j]).id != id@ by {
            assert(all[q - 1].id != id@);
            assert(key_le(all[q - 1].id, id@));
            lemma_key_lt_total(all[q - 1].id, id@);
            if j < q - 1 {
                assert(key_le(all[j].id, all[q - 1].id));
                lemma_key_le_lt(all[j].id, all[q - 1].id, id@);
            }
            lemma_key_lt_total(all[j].id, id@);
        }
        assert forall|j: int| p <= j < all.len() implies (#[trigger] all[j]).id != id@ by {
            lemma_key_lt_total(id@, all[j].id);
        }
        lemma_versions_run(all, id@, q as int, p as int);
    }
    let ghost run = all.subrange(q as int, p as int);
    let mut best: Option<usize> = None;
    let mut i: usize = q;
    proof {
        assert(run.take(0) =~= Seq::<RecordModel>::empty());
    }
    while i < p
        invariant
            q <= i <= p <= records@.len(),
            all == records_view(records@),
            run == all.subrange(q as int, p as int),
            match best {
                Some(k) => q <= k < i && latest_visible(run.take(i - q), snapshot) == Some(
                    all[k as int],
                ),
                None => latest_visible(run.take(i - q), snapshot) is None,
            },
        decreases p - i,
    {
        proof {
            let next = run.take(i - q + 1);
            assert(next.drop_last() =~= run.take(i - q));
            assert(next.last() == all[i as int]);
        }
        if records[i].seqno <= snapshot {
            let better = match best {
                Some(k) => records[k].seqno <= records[i].seqno,
                None => true,
            };
            if better {
                best = Some(i);
            }
        }
        i += 1;
    }
    proof {
        assert(run.take(p - q) =~= run);
    }
    (best, q < p)
}

} // verus!
