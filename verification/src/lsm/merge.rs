//! Merging the records of several pages into one stream.
//!
//! Each source is the run of records of one page, in the order of their
//! ids, with the level of the page. The merge takes the keys in their
//! order. Of the versions of a key the one with the largest seqno wins, and
//! of two with the same seqno the one from the lower level. A key whose
//! winner is a tombstone leaves the stream.

use vstd::prelude::*;
use crate::keys::{key_before, key_lt, key_same};
use crate::storage::page::builder::Page;
use crate::storage::record::{records_view, Record, RecordModel};

verus! {

/// The sources of a merge as mathematical values: for each source the
/// records that are still to come, and its level.
pub type Sources = Seq<(Seq<RecordModel>, u32)>;

/// The smallest id at the head of a source, nothing where every source is
/// at its end.
pub open spec fn min_head(srcs: Sources) -> Option<Seq<char>>
    decreases srcs.len(),
{
    if srcs.len() == 0 {
        None
    } else {
        let front = min_head(srcs.drop_last());
        let s = srcs.last().0;
        if s.len() == 0 {
            front
        } else {
            match front {
                None => Some(s[0].id),
                Some(m) => if key_lt(s[0].id, m) {
                    Some(s[0].id)
                } else {
                    Some(m)
                },
            }
        }
    }
}

/// How many records at the front have the id `k`.
pub open spec fn run_len(rs: Seq<RecordModel>, k: Seq<char>) -> nat
    decreases rs.len(),
{
    if rs.len() == 0 || rs[0].id != k {
        0
    } else {
        1 + run_len(rs.drop_first(), k)
    }
}

/// Whether version `x` from level `xl` wins over version `b` from level
/// `bl`: it has the larger seqno, or the same and comes from the lower
/// level.
pub open spec fn wins_over(x: RecordModel, xl: u32, b: RecordModel, bl: u32) -> bool {
    x.seqno > b.seqno || (x.seqno == b.seqno && xl < bl)
}

/// The winner among `acc` and the records of `run`, which come from
/// `level`. Of two versions of which neither wins over the other, the
/// earlier stays.
pub open spec fn best_in(acc: Option<(RecordModel, u32)>, run: Seq<RecordModel>, level: u32)
    -> Option<(RecordModel, u32)>
    decreases run.len(),
{
    if run.len() == 0 {
        acc
    } else {
        let b = best_in(acc, run.drop_last(), level);
        let x = run.last();
        match b {
            None => Some((x, level)),
            Some((r, l)) => if wins_over(x, level, r, l) {
                Some((x, level))
            } else {
                b
            },
        }
    }
}

/// The winner among the records with id `k` at the heads of the sources.
pub open spec fn best_over(srcs: Sources, k: Seq<char>) -> Option<(RecordModel, u32)>
    decreases srcs.len(),
{
    if srcs.len() == 0 {
        None
    } else {
        let s = srcs.last();
        best_in(best_over(srcs.drop_last(), k), s.0.take(run_len(s.0, k) as int), s.1)
    }
}

/// The record that wins among those with id `k` at the heads.
pub open spec fn winner(srcs: Sources, k: Seq<char>) -> RecordModel {
    (best_over(srcs, k)->0).0
}

/// The sources after the records with id `k` at their heads were taken.
pub open spec fn advanced(srcs: Sources, k: Seq<char>) -> Sources {
    Seq::new(srcs.len(), |i: int| (srcs[i].0.skip(run_len(srcs[i].0, k) as int), srcs[i].1))
}

/// The number of records that are still to come.
pub open spec fn total_len(srcs: Sources) -> nat
    decreases srcs.len(),
{
    if srcs.len() == 0 {
        0
    } else {
        total_len(srcs.drop_last()) + srcs.last().0.len()
    }
}

/// The stream that at most `steps` steps of the merge give.
pub open spec fn merged_within(srcs: Sources, steps: nat) -> Seq<RecordModel>
    decreases steps,
{
    if steps == 0 {
        Seq::empty()
    } else {
        match min_head(srcs) {
            None => Seq::empty(),
            Some(k) => {
                let rest = merged_within(advanced(srcs, k), (steps - 1) as nat);
                match best_over(srcs, k) {
                    Some((w, _)) => if w.is_tombstone {
                        rest
                    } else {
                        seq![w] + rest
                    },
                    None => rest,
                }
            },
        }
    }
}

/// The stream that the merge gives: as many steps as there are records
/// reach the end of every source.
pub open spec fn merged(srcs: Sources) -> Seq<RecordModel> {
    merged_within(srcs, total_len(srcs))
}

/// What `run_len` is, told from the records.
pub proof fn lemma_run_len(rs: Seq<RecordModel>, k: Seq<char>, c: int)
    requires
        0 <= c <= rs.len(),
        forall|j: int| 0 <= j < c ==> (#[trigger] rs[j]).id == k,
        c == rs.len() || rs[c].id != k,
    ensures
        run_len(rs, k) == c,
    decreases rs.len(),
{
    if c > 0 {
        let tail = rs.drop_first();
        assert forall|j: int| 0 <= j < c - 1 implies (#[trigger] tail[j]).id == k by {
            assert(tail[j] == rs[j + 1]);
        }
        if c - 1 < tail.len() {
            assert(tail[c - 1] == rs[c]);
        }
        assert(rs[0].id == k);
        lemma_run_len(tail, k, c - 1);
    }
}

/// What `run_len` counts.
pub proof fn lemma_run_len_bounds(rs: Seq<RecordModel>, k: Seq<char>)
    ensures
        run_len(rs, k) <= rs.len(),
        forall|j: int| 0 <= j < run_len(rs, k) ==> (#[trigger] rs[j]).id == k,
        run_len(rs, k) < rs.len() ==> rs[run_len(rs, k) as int].id != k,
        rs.len() > 0 && rs[0].id == k ==> run_len(rs, k) >= 1,
    decreases rs.len(),
{
    if rs.len() > 0 && rs[0].id == k {
        let tail = rs.drop_first();
        lemma_run_len_bounds(tail, k);
        assert forall|j: int| 0 <= j < run_len(rs, k) implies (#[trigger] rs[j]).id == k by {
            if j > 0 {
                assert(tail[j - 1] == rs[j]);
            }
        }
        if run_len(rs, k) < rs.len() {
            assert(tail[run_len(tail, k) as int] == rs[run_len(rs, k) as int]);
        }
    }
}

/// The smallest head is the head of a source, and no head is before it.
pub proof fn lemma_min_head(srcs: Sources)
    ensures
        match min_head(srcs) {
            None => forall|i: int| 0 <= i < srcs.len() ==> (#[trigger] srcs[i]).0.len() == 0,
            Some(k) => (exists|i: int|
                0 <= i < srcs.len() && (#[trigger] srcs[i]).0.len() > 0 && srcs[i].0[0].id == k)
                && forall|i: int|
                0 <= i < srcs.len() && (#[trigger] srcs[i]).0.len() > 0 ==> !key_lt(
                    srcs[i].0[0].id,
                    k,
                ),
        },
    decreases srcs.len(),
{
    if srcs.len() > 0 {
        let front = srcs.drop_last();
        lemma_min_head(front);
        let s = srcs.last().0;
        match min_head(srcs) {
            None => {
                assert forall|i: int| 0 <= i < srcs.len() implies (#[trigger] srcs[i]).0.len()
                    == 0 by {
                    if i < srcs.len() - 1 {
                        assert(front[i] == srcs[i]);
                    }
                }
            },
            Some(k) => {
                if s.len() > 0 && s[0].id == k {
                    assert(srcs[srcs.len() - 1].0.len() > 0 && srcs[srcs.len() - 1].0[0].id == k);
                } else {
                    let i = choose|i: int|
                        0 <= i < front.len() && (#[trigger] front[i]).0.len() > 0
                            && front[i].0[0].id == k;
                    assert(srcs[i] == front[i]);
                }
                assert forall|i: int|
                    0 <= i < srcs.len() && (#[trigger] srcs[i]).0.len() > 0 implies !key_lt(
                    srcs[i].0[0].id,
                    k,
                ) by {
                    if i < srcs.len() - 1 {
                        assert(front[i] == srcs[i]);
                        let m = min_head(front)->0;
                        assert(!key_lt(front[i].0[0].id, m));
                        if k != m {
                            crate::keys::lemma_key_lt_total(front[i].0[0].id, m);
                            if key_lt(front[i].0[0].id, k) {
                                crate::keys::lemma_key_lt_transitive(front[i].0[0].id, k, m);
                            }
                        }
                    } else {
                        crate::keys::lemma_key_lt_total(s[0].id, k);
                    }
                }
            },
        }
    }
}

/// Taking the records at the smallest head leaves fewer records.
pub proof fn lemma_advanced_shorter(srcs: Sources, k: Seq<char>)
    requires
        min_head(srcs) == Some(k),
    ensures
        total_len(advanced(srcs, k)) < total_len(srcs),
{
    lemma_min_head(srcs);
    let i = choose|i: int|
        0 <= i < srcs.len() && (#[trigger] srcs[i]).0.len() > 0 && srcs[i].0[0].id == k;
    lemma_advanced_len(srcs, k, srcs.len() as int, i);
    assert(advanced(srcs, k).take(srcs.len() as int) =~= advanced(srcs, k));
    assert(srcs.take(srcs.len() as int) =~= srcs);
}

/// The records still to come in the first `n` sources, before and after
/// taking the records with id `k`.
proof fn lemma_advanced_len(srcs: Sources, k: Seq<char>, n: int, i: int)
    requires
        0 <= n <= srcs.len(),
        0 <= i < srcs.len(),
        srcs[i].0.len() > 0,
        srcs[i].0[0].id == k,
    ensures
        total_len(advanced(srcs, k).take(n)) <= total_len(srcs.take(n)),
        i < n ==> total_len(advanced(srcs, k).take(n)) < total_len(srcs.take(n)),
    decreases n,
{
    let adv = advanced(srcs, k);
    if n == 0 {
        assert(adv.take(0) =~= Seq::<(Seq<RecordModel>, u32)>::empty());
        assert(srcs.take(0) =~= Seq::<(Seq<RecordModel>, u32)>::empty());
    } else {
        lemma_advanced_len(srcs, k, n - 1, i);
        assert(adv.take(n).drop_last() =~= adv.take(n - 1));
        assert(srcs.take(n).drop_last() =~= srcs.take(n - 1));
        assert(adv.take(n).last() == adv[n - 1]);
        assert(srcs.take(n).last() == srcs[n - 1]);
        lemma_run_len_bounds(srcs[n - 1].0, k);
    }
    if n == srcs.len() {
        assert(adv.take(n) =~= adv);
        assert(srcs.take(n) =~= srcs);
    }
}

/// More steps than there are records give no more of the stream.
pub proof fn lemma_merged_within(srcs: Sources, steps: nat)
    requires
        steps >= total_len(srcs),
    ensures
        merged_within(srcs, steps) == merged(srcs),
    decreases steps,
{
    match min_head(srcs) {
        None => {
            if total_len(srcs) > 0 {
                lemma_min_head(srcs);
                lemma_total_len_zero(srcs);
            }
        },
        Some(k) => {
            lemma_advanced_shorter(srcs, k);
            let adv = advanced(srcs, k);
            lemma_merged_within(adv, (steps - 1) as nat);
            lemma_merged_within(adv, (total_len(srcs) - 1) as nat);
        },
    }
}

/// The stream is no longer than the steps that gave it.
pub proof fn lemma_merged_within_len(srcs: Sources, steps: nat)
    ensures
        merged_within(srcs, steps).len() <= steps,
    decreases steps,
{
    if steps > 0 {
        match min_head(srcs) {
            None => {},
            Some(k) => {
                lemma_merged_within_len(advanced(srcs, k), (steps - 1) as nat);
            },
        }
    }
}

/// Sources that are all at their end hold no records.
pub proof fn lemma_total_len_zero(srcs: Sources)
    requires
        forall|i: int| 0 <= i < srcs.len() ==> (#[trigger] srcs[i]).0.len() == 0,
    ensures
        total_len(srcs) == 0,
    decreases srcs.len(),
{
    if srcs.len() > 0 {
        let front = srcs.drop_last();
        assert forall|i: int| 0 <= i < front.len() implies (#[trigger] front[i]).0.len() == 0 by {
            assert(front[i] == srcs[i]);
        }
        lemma_total_len_zero(front);
        assert(srcs.last() == srcs[srcs.len() - 1]);
    }
}

/// One step of the merge, told from the stream of the sources before and
/// after.
pub proof fn lemma_merged_step(srcs: Sources)
    ensures
        match min_head(srcs) {
            None => merged(srcs) == Seq::<RecordModel>::empty(),
            Some(k) => best_over(srcs, k) is Some && merged(srcs) == (if winner(
                srcs,
                k,
            ).is_tombstone {
                merged(advanced(srcs, k))
            } else {
                seq![winner(srcs, k)] + merged(advanced(srcs, k))
            }),
        },
{
    match min_head(srcs) {
        None => {},
        Some(k) => {
            lemma_advanced_shorter(srcs, k);
            lemma_merged_within(advanced(srcs, k), (total_len(srcs) - 1) as nat);
            lemma_min_head(srcs);
            let i = choose|i: int|
                0 <= i < srcs.len() && (#[trigger] srcs[i]).0.len() > 0 && srcs[i].0[0].id == k;
            lemma_best_over_some(srcs, k, i);
        },
    }
}

/// Where a source has the id at its head, there is a winner.
pub proof fn lemma_best_over_some(srcs: Sources, k: Seq<char>, i: int)
    requires
        0 <= i < srcs.len(),
        srcs[i].0.len() > 0,
        srcs[i].0[0].id == k,
    ensures
        best_over(srcs, k) is Some,
    decreases srcs.len(),
{
    let front = srcs.drop_last();
    let s = srcs.last();
    let run = s.0.take(run_len(s.0, k) as int);
    if i < srcs.len() - 1 {
        assert(front[i] == srcs[i]);
        lemma_best_over_some(front, k, i);
        lemma_best_in_some(best_over(front, k), run, s.1);
    } else {
        lemma_run_len_bounds(s.0, k);
        lemma_best_in_some(best_over(front, k), run, s.1);
    }
}

/// Where there is a candidate there is a winner.
pub proof fn lemma_best_in_some(acc: Option<(RecordModel, u32)>, run: Seq<RecordModel>, level: u32)
    ensures
        acc is Some || run.len() > 0 ==> best_in(acc, run, level) is Some,
    decreases run.len(),
{
    if run.len() > 0 {
        lemma_best_in_some(acc, run.drop_last(), level);
    }
}

/// The records of one page that are still to be merged.
pub struct PageIterator {
    records: Vec<Record>,
    index: usize,
}

impl View for PageIterator {
    type V = Seq<RecordModel>;

    closed spec fn view(&self) -> Seq<RecordModel> {
        if self.index <= self.records@.len() {
            records_view(self.records@).skip(self.index as int)
        } else {
            Seq::empty()
        }
    }
}

impl PageIterator {
    /// An iterator over the records.
    pub fn new(records: Vec<Record>) -> (it: Self)
        ensures
            it@ == records_view(records@),
    {
        let it = PageIterator { records, index: 0 };
        proof {
            assert(records_view(it.records@).skip(0) =~= records_view(it.records@));
        }
        it
    }

    /// An iterator over the records of a page.
    pub fn from_page(page: Page) -> (it: Self)
        ensures
            it@ == page@.records,
    {
        PageIterator::new(page.records)
    }

    /// The record that comes next, nothing at the end.
    pub fn peek(&self) -> (r: Option<&Record>)
        ensures
            match r {
                Some(rec) => self@.len() > 0 && rec@ == self@[0],
                None => self@.len() == 0,
            },
    {
        if self.index < self.records.len() {
            Some(&self.records[self.index])
        } else {
            None
        }
    }

    /// The number of records that are still to come.
    pub fn remaining(&self) -> (n: usize)
        ensures
            n == self@.len(),
    {
        if self.index <= self.records.len() {
            self.records.len() - self.index
        } else {
            0
        }
    }

    /// Takes the record that comes next, nothing at the end.
    pub fn next(&mut self) -> (r: Option<Record>)
        ensures
            match r {
                Some(rec) => old(self)@.len() > 0 && rec@ == old(self)@[0] && final(self)@ == old(
                    self,
                )@.drop_first(),
                None => old(self)@.len() == 0 && final(self)@ == old(self)@,
            },
    {
        if self.index < self.records.len() {
            let rec = self.records[self.index].clone();
            self.index = self.index + 1;
            proof {
                assert(self@ =~= old(self)@.drop_first());
            }
            Some(rec)
        } else {
            None
        }
    }
}

/// What one step of the merge gives.
#[derive(Debug, PartialEq, Eq)]
pub enum MergeOutput {
    /// The winner of the next key.
    Live(Record),
    /// The next key is deleted: its winner is a tombstone.
    Dropped,
    /// Every source is at its end.
    Exhausted,
}

/// The sources as mathematical values.
pub open spec fn sources_view(sources: Seq<(PageIterator, u32)>) -> Sources {
    sources.map_values(|s: (PageIterator, u32)| (s.0@, s.1))
}

/// A merge of several sources.
pub struct MergeIterator {
    sources: Vec<(PageIterator, u32)>,
}

impl View for MergeIterator {
    type V = Sources;

    closed spec fn view(&self) -> Sources {
        sources_view(self.sources@)
    }
}

impl MergeIterator {
    /// A merge of the sources, each with its level.
    pub fn new(sources: Vec<(PageIterator, u32)>) -> (m: Self)
        ensures
            m@ == sources_view(sources@),
    {
        MergeIterator { sources }
    }

    /// The position of a source with the smallest id at its head.
    fn smallest(&self) -> (r: Option<usize>)
        ensures
            match r {
                None => min_head(self@) is None,
                Some(m) => m < self@.len() && self@[m as int].0.len() > 0 && min_head(self@)
                    == Some(self@[m as int].0[0].id),
            },
    {
        let ghost all = sources_view(self.sources@);
        let mut best: Option<usize> = None;
        let mut i: usize = 0;
        proof {
            assert(all.take(0) =~= Seq::<(Seq<RecordModel>, u32)>::empty());
        }
        while i < self.sources.len()
            invariant
                0 <= i <= self.sources@.len(),
                all == sources_view(self.sources@),
                match best {
                    None => min_head(all.take(i as int)) is None,
                    Some(m) => m < i && all[m as int].0.len() > 0 && min_head(all.take(i as int))
                        == Some(all[m as int].0[0].id),
                },
            decreases self.sources@.len() - i,
        {
            proof {
                assert(all.take(i + 1).drop_last() =~= all.take(i as int));
                assert(all.take(i + 1).last() == all[i as int]);
                assert(all[i as int] == (self.sources@[i as int].0@, self.sources@[i as int].1));
            }
            match self.sources[i].0.peek() {
                None => {},
                Some(rec) => {
                    match best {
                        None => {
                            best = Some(i);
                        },
                        Some(m) => {
                            proof {
                                assert(all[m as int] == (
                                    self.sources@[m as int].0@,
                                    self.sources@[m as int].1,
                                ));
                            }
                            match self.sources[m].0.peek() {
                                Some(cur) => {
                                    if key_before(rec.id.as_str(), cur.id.as_str()) {
                                        best = Some(i);
                                    }
                                },
                                None => {},
                            }
                        },
                    }
                },
            }
            i += 1;
        }
        proof {
            assert(all.take(i as int) =~= all);
        }
        best
    }

    /// One step of the merge. The step takes, from every source, the records
    /// at its head that have the smallest id at any head. It gives the
    /// winner among them, or says that the key is dropped where the winner
    /// is a tombstone. Where every source is at its end it says so.
    pub fn next(&mut self) -> (r: MergeOutput)
        ensures
            match min_head(old(self)@) {
                None => r is Exhausted && final(self)@ == old(self)@,
                Some(k) => final(self)@ == advanced(old(self)@, k) && match best_over(
                    old(self)@,
                    k,
                ) {
                    Some((w, _)) => if w.is_tombstone {
                        r is Dropped
                    } else {
                        r matches MergeOutput::Live(rec) && rec@ == w
                    },
                    None => false,
                },
            },
    {
        let first = match self.smallest() {
            None => { return MergeOutput::Exhausted; },
            Some(m) => m,
        };
        let ghost start = sources_view(self.sources@);
        let key = match self.sources[first].0.peek() {
            Some(rec) => rec.id.clone(),
            None => { return MergeOutput::Exhausted; },
        };
        let ghost k = key@;
        proof {
            assert(start[first as int] == (
                self.sources@[first as int].0@,
                self.sources@[first as int].1,
            ));
            lemma_best_over_some(start, k, first as int);
        }
        let n = self.sources.len();
        let mut best: Option<(Record, u32)> = None;
        let mut i: usize = 0;
        proof {
            assert(start.take(0) =~= Seq::<(Seq<RecordModel>, u32)>::empty());
        }
        while i < n
            invariant
                0 <= i <= n,
                n == start.len(),
                k == key@,
                self.sources@.len() == n,
                forall|j: int|
                    0 <= j < i ==> #[trigger] sources_view(self.sources@)[j] == advanced(
                        start,
                        k,
                    )[j],
                forall|j: int| i <= j < n ==> #[trigger] sources_view(self.sources@)[j] == start[j],
                match best {
                    None => best_over(start.take(i as int), k) is None,
                    Some((rec, l)) => best_over(start.take(i as int), k) == Some((rec@, l)),
                },
            decreases n - i,
        {
            let level = self.sources[i].1;
            let left = self.sources[i].0.remaining();
            let ghost whole = start[i as int].0;
            let ghost acc = best_over(start.take(i as int), k);
            let mut c: usize = 0;
            let mut more = true;
            proof {
                assert(sources_view(self.sources@)[i as int] == start[i as int]);
                assert(whole.skip(0) =~= whole);
                assert(whole.take(0) =~= Seq::<RecordModel>::empty());
                assert(start.take(i + 1).drop_last() =~= start.take(i as int));
                assert(start.take(i + 1).last() == start[i as int]);
            }
            while more
                invariant
                    0 <= i < n,
                    n == start.len(),
                    k == key@,
                    self.sources@.len() == n,
                    whole == start[i as int].0,
                    level == start[i as int].1,
                    acc == best_over(start.take(i as int), k),
                    0 <= c <= whole.len(),
                    whole.len() == left,
                    self.sources@[i as int].0@ == whole.skip(c as int),
                    self.sources@[i as int].1 == level,
                    forall|j: int| 0 <= j < c ==> (#[trigger] whole[j]).id == k,
                    !more ==> (c == whole.len() || whole[c as int].id != k),
                    forall|j: int|
                        0 <= j < i ==> #[trigger] sources_view(self.sources@)[j] == advanced(
                            start,
                            k,
                        )[j],
                    forall|j: int|
                        i < j < n ==> #[trigger] sources_view(self.sources@)[j] == start[j],
                    match best {
                        None => best_in(acc, whole.take(c as int), level) is None,
                        Some((rec, l)) => best_in(acc, whole.take(c as int), level) == Some(
                            (rec@, l),
                        ),
                    },
                decreases whole.len() - c + (if more { 1int } else { 0int }),
            {
                let ghost before = sources_view(self.sources@);
                let at_key = match self.sources[i].0.peek() {
                    Some(rec) => key_same(rec.id.as_str(), key.as_str()),
                    None => false,
                };
                if at_key {
                    let taken = self.sources[i].0.next();
                    proof {
                        let after = sources_view(self.sources@);
                        assert forall|j: int| 0 <= j < n && j != i implies #[trigger] after[j]
                            == before[j] by {
                        }
                        assert(whole.skip(c as int).drop_first() =~= whole.skip(c + 1));
                        assert(whole.take(c + 1).drop_last() =~= whole.take(c as int));
                        assert(whole.take(c + 1).last() == whole[c as int]);
                        assert(whole.skip(c as int)[0] == whole[c as int]);
                    }
                    match taken {
                        Some(rec) => {
                            let better = match &best {
                                None => true,
                                Some((b, l)) => rec.seqno > b.seqno || (rec.seqno == b.seqno
                                    && level < *l),
                            };
                            if better {
                                best = Some((rec, level));
                            }
                        },
                        None => {},
                    }
                    c += 1;
                } else {
                    proof {
                        if c < whole.len() {
                            assert(whole.skip(c as int)[0] == whole[c as int]);
                        }
                    }
                    more = false;
                }
            }
            proof {
                lemma_run_len(whole, k, c as int);
                assert(sources_view(self.sources@)[i as int] == (
                    self.sources@[i as int].0@,
                    self.sources@[i as int].1,
                ));
            }
            i += 1;
        }
        proof {
            assert(start.take(n as int) =~= start);
            assert(sources_view(self.sources@) =~= advanced(start, k));
        }
        match best {
            Some((rec, _)) => if rec.is_tombstone {
                MergeOutput::Dropped
            } else {
                MergeOutput::Live(rec)
            },
            None => MergeOutput::Exhausted,
        }
    }

    /// Runs the merge to its end and gives the stream.
    pub fn merge_all(&mut self) -> (out: Vec<Record>)
        ensures
            records_view(out@) == merged(old(self)@),
            min_head(final(self)@) is None,
    {
        let mut out: Vec<Record> = Vec::new();
        let mut done = false;
        proof {
            assert(records_view(out@) =~= Seq::<RecordModel>::empty());
            assert(Seq::<RecordModel>::empty() + merged(self@) =~= merged(self@));
        }
        while !done
            invariant
                merged(old(self)@) == records_view(out@) + merged(self@),
                done ==> min_head(self@) is None,
            decreases total_len(self@) + (if done { 0int } else { 1int }),
        {
            proof {
                lemma_merged_step(self@);
                if min_head(self@) is Some {
                    lemma_advanced_shorter(self@, min_head(self@)->0);
                }
            }
            let ghost prev = records_view(out@);
            let ghost rest = merged(self@);
            match self.next() {
                MergeOutput::Live(rec) => {
                    out.push(rec);
                    proof {
                        assert(records_view(out@) =~= prev.push(rec@));
                        assert(prev + (seq![rec@] + merged(self@)) =~= prev.push(rec@) + merged(
                            self@,
                        ));
                    }
                },
                MergeOutput::Dropped => {},
                MergeOutput::Exhausted => {
                    done = true;
                },
            }
        }
        proof {
            lemma_merged_step(self@);
            assert(records_view(out@) + Seq::<RecordModel>::empty() =~= records_view(out@));
        }
        out
    }
}

} // verus!
