//! What the merge gives on sources that are in order.
//!
//! Where every source has its records in the order of their ids, the stream
//! of the merge has every key once at most, in the order of the keys, and
//! holds of each key the version that wins among all versions of the key in
//! all sources, unless that version is a tombstone.

use vstd::prelude::*;
use crate::keys::{
    key_le, key_lt, lemma_key_le_lt, lemma_key_le_transitive, lemma_key_lt_le, lemma_key_lt_total,
    lemma_key_lt_transitive,
};
use crate::lsm::merge::{
    advanced, best_in, best_over, lemma_advanced_shorter, lemma_merged_step, lemma_min_head,
    lemma_run_len_bounds, merged, min_head, run_len, total_len, winner, Sources,
};
use crate::storage::record::RecordModel;
use crate::storage::versions::{
    lemma_versions_add, lemma_versions_none, lemma_versions_run, sorted_by_id, versions_of,
};

verus! {

/// Every source has its records in the order of their ids.
pub open spec fn sources_sorted(srcs: Sources) -> bool {
    forall|i: int| 0 <= i < srcs.len() ==> sorted_by_id((#[trigger] srcs[i]).0)
}

/// The ids go up strictly, so no id occurs twice.
pub open spec fn strictly_sorted(rs: Seq<RecordModel>) -> bool {
    forall|a: int, b: int| 0 <= a < b < rs.len() ==> key_lt(#[trigger] rs[a].id, #[trigger] rs[b].id)
}

/// The version that wins among all versions of `k` in all sources.
pub open spec fn champion(srcs: Sources, k: Seq<char>) -> Option<(RecordModel, u32)>
    decreases srcs.len(),
{
    if srcs.len() == 0 {
        None
    } else {
        best_in(champion(srcs.drop_last(), k), versions_of(srcs.last().0, k), srcs.last().1)
    }
}

/// What the stream holds of `k`: the champion, unless it is a tombstone or
/// there is no version.
pub open spec fn survivor(srcs: Sources, k: Seq<char>) -> Seq<RecordModel> {
    match champion(srcs, k) {
        Some((w, _)) => if w.is_tombstone {
            Seq::empty()
        } else {
            seq![w]
        },
        None => Seq::empty(),
    }
}

/// A source in order whose head is not before `k`: the records with id `k`
/// are those of its leading run, and behind the run every id is after `k`.
pub proof fn lemma_advance_source(s: Seq<RecordModel>, k: Seq<char>)
    requires
        sorted_by_id(s),
        s.len() > 0 ==> !key_lt(s[0].id, k),
    ensures
        run_len(s, k) <= s.len(),
        forall|j: int| run_len(s, k) <= j < s.len() ==> key_lt(k, (#[trigger] s[j]).id),
        sorted_by_id(s.skip(run_len(s, k) as int)),
        versions_of(s, k) == s.take(run_len(s, k) as int),
        versions_of(s.skip(run_len(s, k) as int), k) == Seq::<RecordModel>::empty(),
        forall|other: Seq<char>|
            other != k ==> #[trigger] versions_of(s.skip(run_len(s, k) as int), other)
                == versions_of(s, other),
{
    let r = run_len(s, k) as int;
    lemma_run_len_bounds(s, k);
    let rest = s.skip(r);
    let run = s.take(r);
    assert forall|j: int| r <= j < s.len() implies key_lt(k, (#[trigger] s[j]).id) by {
        // the first record behind the run is not `k` and not before it
        assert(key_le(s[0].id, s[r].id));
        lemma_key_lt_total(s[0].id, k);
        lemma_key_lt_total(k, s[r].id);
        if r > 0 {
            assert(s[0].id == k);
        } else {
            assert(key_lt(k, s[0].id));
        }
        if j > r {
            assert(key_le(s[r].id, s[j].id));
            lemma_key_lt_le(k, s[r].id, s[j].id);
        }
    }
    assert forall|a: int, b: int| 0 <= a < b < rest.len() implies key_le(
        #[trigger] rest[a].id,
        #[trigger] rest[b].id,
    ) by {
        assert(rest[a] == s[r + a] && rest[b] == s[r + b]);
    }
    assert forall|j: int| r <= j < s.len() implies (#[trigger] s[j]).id != k by {
        lemma_key_lt_total(k, s[j].id);
    }
    lemma_versions_run(s, k, 0, r);
    assert(s.subrange(0, r) =~= run);
    assert forall|j: int| 0 <= j < rest.len() implies (#[trigger] rest[j]).id != k by {
        assert(rest[j] == s[r + j]);
    }
    lemma_versions_none(rest, k);
    assert(s =~= run + rest);
    assert forall|other: Seq<char>| other != k implies #[trigger] versions_of(rest, other)
        == versions_of(s, other) by {
        lemma_versions_add(run, rest, other);
        assert forall|j: int| 0 <= j < run.len() implies (#[trigger] run[j]).id != other by {
            assert(run[j] == s[j]);
        }
        lemma_versions_none(run, other);
        assert(Seq::<RecordModel>::empty() + versions_of(rest, other) =~= versions_of(
            rest,
            other,
        ));
    }
}

/// The winner among records with one id has that id.
pub proof fn lemma_best_in_id(
    acc: Option<(RecordModel, u32)>,
    run: Seq<RecordModel>,
    level: u32,
    k: Seq<char>,
)
    requires
        acc matches Some((r, _)) ==> r.id == k,
        forall|j: int| 0 <= j < run.len() ==> (#[trigger] run[j]).id == k,
    ensures
        best_in(acc, run, level) matches Some((r, _)) ==> r.id == k,
    decreases run.len(),
{
    if run.len() > 0 {
        let front = run.drop_last();
        assert forall|j: int| 0 <= j < front.len() implies (#[trigger] front[j]).id == k by {
            assert(front[j] == run[j]);
        }
        lemma_best_in_id(acc, front, level, k);
        assert(run.last() == run[run.len() - 1]);
    }
}

/// The winner of a step has the id of the step.
pub proof fn lemma_best_over_id(srcs: Sources, k: Seq<char>)
    ensures
        best_over(srcs, k) matches Some((r, _)) ==> r.id == k,
    decreases srcs.len(),
{
    if srcs.len() > 0 {
        lemma_best_over_id(srcs.drop_last(), k);
        let s = srcs.last();
        lemma_run_len_bounds(s.0, k);
        let run = s.0.take(run_len(s.0, k) as int);
        assert forall|j: int| 0 <= j < run.len() implies (#[trigger] run[j]).id == k by {
            assert(run[j] == s.0[j]);
        }
        lemma_best_in_id(best_over(srcs.drop_last(), k), run, s.1, k);
    }
}

/// On sources in order, the winner of the step at the smallest head is the
/// champion of that key, and the champions of all other keys are those of
/// the sources behind the step.
pub proof fn lemma_champion_step(srcs: Sources, k: Seq<char>)
    requires
        sources_sorted(srcs),
        forall|i: int|
            0 <= i < srcs.len() && (#[trigger] srcs[i]).0.len() > 0 ==> !key_lt(srcs[i].0[0].id, k),
    ensures
        champion(srcs, k) == best_over(srcs, k),
        forall|other: Seq<char>|
            other != k ==> #[trigger] champion(advanced(srcs, k), other) == champion(srcs, other),
        sources_sorted(advanced(srcs, k)),
        forall|i: int, j: int|
            0 <= i < srcs.len() && 0 <= j < advanced(srcs, k)[i].0.len() ==> key_lt(
                k,
                (#[trigger] advanced(srcs, k)[i].0[j]).id,
            ),
    decreases srcs.len(),
{
    let adv = advanced(srcs, k);
    if srcs.len() > 0 {
        let front = srcs.drop_last();
        let s = srcs.last();
        assert(s == srcs[srcs.len() - 1]);
        assert forall|i: int| 0 <= i < front.len() implies sorted_by_id((#[trigger] front[i]).0) by {
            assert(front[i] == srcs[i]);
        }
        assert forall|i: int|
            0 <= i < front.len() && (#[trigger] front[i]).0.len() > 0 implies !key_lt(
            front[i].0[0].id,
            k,
        ) by {
            assert(front[i] == srcs[i]);
        }
        lemma_champion_step(front, k);
        lemma_advance_source(s.0, k);
        assert(adv.drop_last() =~= advanced(front, k));
        assert(adv.last() == (s.0.skip(run_len(s.0, k) as int), s.1));
        assert forall|i: int| 0 <= i < adv.len() implies sorted_by_id((#[trigger] adv[i]).0) by {
            if i < front.len() {
                assert(adv[i] == advanced(front, k)[i]);
            }
        }
        assert forall|i: int, j: int|
            0 <= i < srcs.len() && 0 <= j < adv[i].0.len() implies key_lt(
            k,
            (#[trigger] adv[i].0[j]).id,
        ) by {
            if i < front.len() {
                assert(adv[i] == advanced(front, k)[i]);
                assert(key_lt(k, advanced(front, k)[i].0[j].id));
            } else {
                let r = run_len(s.0, k) as int;
                assert(adv[i].0[j] == s.0[r + j]);
            }
        }
        assert forall|other: Seq<char>| other != k implies #[trigger] champion(adv, other)
            == champion(srcs, other) by {
            assert(champion(advanced(front, k), other) == champion(front, other));
            assert(versions_of(s.0.skip(run_len(s.0, k) as int), other) == versions_of(
                s.0,
                other,
            ));
        }
    } else {
        assert(adv =~= srcs);
    }
}

/// The law of the merge. On sources in order: the stream goes up strictly
/// by id; it holds of every key exactly what survives of it; and no id in it
/// is before the smallest head.
pub proof fn lemma_merge_law(srcs: Sources)
    requires
        sources_sorted(srcs),
    ensures
        strictly_sorted(merged(srcs)),
        forall|k: Seq<char>| #[trigger] versions_of(merged(srcs), k) == survivor(srcs, k),
        forall|a: int|
            0 <= a < merged(srcs).len() ==> min_head(srcs) is Some && key_le(
                min_head(srcs)->0,
                (#[trigger] merged(srcs)[a]).id,
            ),
    decreases total_len(srcs),
{
    lemma_merged_step(srcs);
    lemma_min_head(srcs);
    match min_head(srcs) {
        None => {
            assert forall|k: Seq<char>| #[trigger]
                versions_of(merged(srcs), k) == survivor(srcs, k) by {
                lemma_champion_none(srcs, k);
            }
        },
        Some(k0) => {
            let adv = advanced(srcs, k0);
            let w = winner(srcs, k0);
            let rest = merged(adv);
            let out = merged(srcs);
            lemma_advanced_shorter(srcs, k0);
            lemma_champion_step(srcs, k0);
            lemma_best_over_id(srcs, k0);
            lemma_merge_law(adv);
            lemma_min_head(adv);
            // every id of the rest is after k0
            assert forall|a: int| 0 <= a < rest.len() implies key_lt(k0, (#[trigger] rest[a]).id) by {
                let m = min_head(adv)->0;
                let i = choose|i: int|
                    0 <= i < adv.len() && (#[trigger] adv[i]).0.len() > 0 && adv[i].0[0].id == m;
                assert(key_lt(k0, adv[i].0[0].id));
                lemma_key_lt_le(k0, m, rest[a].id);
            }
            assert forall|a: int| 0 <= a < rest.len() implies (#[trigger] rest[a]).id != k0 by {
                lemma_key_lt_total(k0, rest[a].id);
            }
            lemma_versions_none(rest, k0);
            if w.is_tombstone {
                assert(out == rest);
                assert forall|a: int| 0 <= a < out.len() implies key_le(
                    k0,
                    (#[trigger] out[a]).id,
                ) by {
                    lemma_key_lt_total(k0, out[a].id);
                }
            } else {
                assert(out == seq![w] + rest);
                assert forall|a: int, b: int| 0 <= a < b < out.len() implies key_lt(
                    #[trigger] out[a].id,
                    #[trigger] out[b].id,
                ) by {
                    assert(out[b] == rest[b - 1]);
                    if a > 0 {
                        assert(out[a] == rest[a - 1]);
                    }
                }
                assert forall|a: int| 0 <= a < out.len() implies key_le(
                    k0,
                    (#[trigger] out[a]).id,
                ) by {
                    if a > 0 {
                        assert(out[a] == rest[a - 1]);
                        lemma_key_lt_total(k0, out[a].id);
                    }
                }
            }
            assert forall|k: Seq<char>| #[trigger] versions_of(out, k) == survivor(srcs, k) by {
                if w.is_tombstone {
                    if k != k0 {
                        assert(champion(adv, k) == champion(srcs, k));
                    }
                } else {
                    lemma_versions_add(seq![w], rest, k);
                    assert(seq![w].drop_last() =~= Seq::<RecordModel>::empty());
                    assert(seq![w].last() == w);
                    assert(versions_of(Seq::<RecordModel>::empty(), k) =~= Seq::<
                        RecordModel,
                    >::empty());
                    if k == k0 {
                        assert(versions_of(seq![w], k) =~= seq![w]);
                        assert(seq![w] + Seq::<RecordModel>::empty() =~= seq![w]);
                    } else {
                        assert(versions_of(seq![w], k) =~= Seq::<RecordModel>::empty());
                        assert(Seq::<RecordModel>::empty() + versions_of(rest, k) =~= versions_of(
                            rest,
                            k,
                        ));
                        assert(champion(adv, k) == champion(srcs, k));
                    }
                }
            }
        },
    }
}

/// Sources that are all at their end have no champion.
pub proof fn lemma_champion_none(srcs: Sources, k: Seq<char>)
    requires
        forall|i: int| 0 <= i < srcs.len() ==> (#[trigger] srcs[i]).0.len() == 0,
    ensures
        champion(srcs, k) is None,
    decreases srcs.len(),
{
    if srcs.len() > 0 {
        let front = srcs.drop_last();
        assert forall|i: int| 0 <= i < front.len() implies (#[trigger] front[i]).0.len() == 0 by {
            assert(front[i] == srcs[i]);
        }
        lemma_champion_none(front, k);
        assert(srcs.last() == srcs[srcs.len() - 1]);
        assert(versions_of(srcs.last().0, k) =~= Seq::<RecordModel>::empty());
    }
}

} // verus!
