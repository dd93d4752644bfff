//! Recovery: bringing the memtable and the manifest back from the log.

use vstd::prelude::*;
use crate::engine::seqno::{advance_to, SeqNo};
use crate::engine::writer::{applied, Writer};
use crate::error::Error;
use crate::lsm::level::metas_view;
use crate::meta::{TableMeta, TableMetaModel};
use crate::storage::flush::{
    chunks, pages_for, pages_view, MAX_PER_PAGE_SIZE, MAX_RECORDS_PER_PAGE,
};
use crate::storage::memtable::MemTable;
use crate::storage::page::builder::Page;
use crate::storage::record::RecordModel;
use crate::storage::wal::replay::{last_seqno, strictly_increasing, ReplayResult};
use crate::storage::wal::{entries_view, read_entries, Wal, WalEntryModel};

verus! {

/// The memtable after the entries above the checkpoint were replayed into
/// it, in their order.
pub open spec fn replayed(mem: Seq<RecordModel>, es: Seq<WalEntryModel>, checkpoint: u64) -> Seq<
    RecordModel,
>
    decreases es.len(),
{
    if es.len() == 0 {
        mem
    } else {
        let before = replayed(mem, es.drop_last(), checkpoint);
        if es.last().seqno > checkpoint {
            applied(before, es.last())
        } else {
            before
        }
    }
}

/// The entries that level zero of the manifest `after` holds behind those
/// of the manifest `before`.
pub open spec fn added_pages(before: TableMetaModel, after: TableMetaModel) -> Seq<
    crate::lsm::level::PageMetaModel,
> {
    crate::meta::level_pages(after.level, 0).skip(
        crate::meta::level_pages(before.level, 0).len() as int,
    )
}

/// One more than `last`, as far as a `u64` goes.
pub open spec fn seqno_after(last: u64) -> u64 {
    if last < u64::MAX {
        (last + 1) as u64
    } else {
        last
    }
}

/// The largest seqno that recovery has seen: the last of the log, or the
/// largest that a page of the manifest holds, whichever is larger.
pub open spec fn largest_seen(es: Seq<WalEntryModel>, levels: Seq<Seq<crate::lsm::level::PageMetaModel>>)
    -> u64 {
    if last_seqno(es) >= crate::meta::largest_seqno_of(levels) {
        last_seqno(es)
    } else {
        crate::meta::largest_seqno_of(levels)
    }
}

/// Replaying entries of which none is above the checkpoint leaves the
/// memtable as it was.
pub proof fn lemma_replayed_absorbed(mem: Seq<RecordModel>, es: Seq<WalEntryModel>, checkpoint: u64)
    requires
        forall|i: int| 0 <= i < es.len() ==> (#[trigger] es[i]).seqno <= checkpoint,
    ensures
        replayed(mem, es, checkpoint) == mem,
    decreases es.len(),
{
    if es.len() > 0 {
        let front = es.drop_last();
        assert forall|i: int| 0 <= i < front.len() implies (#[trigger] front[i]).seqno
            <= checkpoint by {
            assert(front[i] == es[i]);
        }
        lemma_replayed_absorbed(mem, front, checkpoint);
        assert(es.last() == es[es.len() - 1]);
    }
}

/// The memtable never gets shorter by a replay, and no longer than by one
/// record for each entry.
pub proof fn lemma_replayed_len(mem: Seq<RecordModel>, es: Seq<WalEntryModel>, checkpoint: u64)
    ensures
        mem.len() <= replayed(mem, es, checkpoint).len() <= mem.len() + es.len(),
    decreases es.len(),
{
    if es.len() > 0 {
        lemma_replayed_len(mem, es.drop_last(), checkpoint);
        let before = replayed(mem, es.drop_last(), checkpoint);
        match es.last().record {
            Some(r) => {
                crate::storage::memtable::lemma_put_position_bounds(before, r.id);
            },
            None => {},
        }
    }
}

/// The log holds no more entries than bytes.
pub proof fn lemma_entries_len(s: Seq<u8>)
    ensures
        read_entries(s) matches Ok(es) ==> es.len() <= s.len(),
    decreases s.len(),
{
    match crate::storage::wal::scan_frame(s) {
        crate::storage::wal::FrameScan::Frame { payload, after } => {
            if after.len() < s.len() {
                lemma_entries_len(after);
            }
        },
        _ => {},
    }
}

/// Recovers from the log.
///
/// The log is read and the order of its seqnos is checked; a log that
/// cannot be read, or whose seqnos do not go up strictly, is corrupt, and
/// nothing changes. The records of the entries above the manifest's
/// checkpoint are put into the memtable, tombstones as well. Where the
/// memtable then holds records it is flushed: its pages are made, their
/// entries join level zero of the manifest, the manifest's next page id
/// moves past them, and the memtable is cleared. The counter of seqnos is
/// raised to one more than the largest seqno seen, in the log or in the
/// entries of the manifest, so that every later write is above all that is
/// stored. The result holds the pages to write.
pub fn recover(
    wal: &Wal,
    memtable: &mut MemTable,
    writer: &Writer,
    meta: &mut TableMeta,
    seq: &mut SeqNo,
) -> (r: Result<Vec<Page>, Error>)
    requires
        old(meta)@.current_page_id + old(memtable)@.len() + wal@.len() <= u64::MAX,
    ensures
        match read_entries(wal@) {
            Ok(es) => if strictly_increasing(es) {
                let mem = replayed(old(memtable)@, es, old(meta)@.checkpoint_seqno);
                &&& r is Ok
                &&& final(seq)@ == (if old(seq)@ >= seqno_after(
                    largest_seen(es, old(meta)@.level),
                ) {
                    old(seq)@
                } else {
                    seqno_after(largest_seen(es, old(meta)@.level))
                })
                &&& final(memtable)@ == Seq::<RecordModel>::empty()
                &&& if mem.len() == 0 {
                    r->Ok_0@.len() == 0 && final(meta)@ == old(meta)@
                } else {
                    let cs = chunks(mem, MAX_PER_PAGE_SIZE, MAX_RECORDS_PER_PAGE);
                    let first = old(meta)@.current_page_id;
                    let metas = added_pages(old(meta)@, final(meta)@);
                    &&& pages_for(pages_view(r->Ok_0@), metas, cs, first)
                    &&& final(meta)@ == (TableMetaModel {
                        level: if old(meta)@.level.len() == 0 {
                            seq![metas]
                        } else {
                            old(meta)@.level.update(0, old(meta)@.level[0] + metas)
                        },
                        current_page_id: (first + cs.len()) as u64,
                        ..old(meta)@
                    })
                }
            } else {
                r == Err::<Vec<Page>, Error>(Error::Corrupt) && final(memtable)@ == old(memtable)@
                    && final(meta)@ == old(meta)@ && final(seq)@ == old(seq)@
            },
            Err(_) => r == Err::<Vec<Page>, Error>(Error::Corrupt) && final(memtable)@ == old(
                memtable,
            )@ && final(meta)@ == old(meta)@ && final(seq)@ == old(seq)@,
        },
{
    let replay = match ReplayResult::replay_wal(wal) {
        Ok(replay) => replay,
        Err(e) => { return Err(e); },
    };
    let ghost es = entries_view(replay.entries@);
    let ghost start = memtable@;
    let checkpoint = meta.checkpoint_seqno;
    let in_pages = crate::meta::largest_page_seqno(meta);
    let seen = if replay.max_seqno >= in_pages {
        replay.max_seqno
    } else {
        in_pages
    };
    let mut i: usize = 0;
    proof {
        assert(es.take(0) =~= Seq::<WalEntryModel>::empty());
        lemma_entries_len(wal@);
    }
    while i < replay.entries.len()
        invariant
            0 <= i <= replay.entries@.len(),
            es == entries_view(replay.entries@),
            checkpoint == meta.checkpoint_seqno,
            *meta == *old(meta),
            *seq == *old(seq),
            memtable@ == replayed(start, es.take(i as int), checkpoint),
        decreases replay.entries@.len() - i,
    {
        proof {
            assert(es.take(i + 1).drop_last() =~= es.take(i as int));
            assert(es.take(i + 1).last() == replay.entries@[i as int]@);
        }
        let entry = &replay.entries[i];
        if entry.seqno > checkpoint {
            match &entry.record {
                Some(record) => {
                    memtable.put(record.clone());
                },
                None => {},
            }
        }
        i += 1;
    }
    proof {
        assert(es.take(i as int) =~= es);
        lemma_replayed_len(start, es, checkpoint);
    }
    let mut pages: Vec<Page> = Vec::new();
    if !memtable.is_empty() {
        let ghost mem = memtable@;
        let ghost first = meta.current_page_id;
        let built = writer.flush(memtable, meta.current_page_id);
        let ghost metas = metas_view(built.metas@);
        meta.add_pages(built.metas);
        meta.current_page_id = built.next_page_id;
        pages = built.pages;
        proof {
            let cs = chunks(mem, MAX_PER_PAGE_SIZE, MAX_RECORDS_PER_PAGE);
            assert(pages_for(pages_view(pages@), metas, cs, first));
            let was = old(meta)@.level;
            if was.len() == 0 {
                assert(added_pages(old(meta)@, meta@) =~= metas);
            } else {
                assert((was[0] + metas).skip(was[0].len() as int) =~= metas);
                assert(added_pages(old(meta)@, meta@) =~= metas);
            }
        }
    } else {
        proof {
            assert(pages_view(pages@) =~= Seq::<crate::storage::page::builder::PageModel>::empty());
        }
    }
    let next = if seen < u64::MAX {
        seen + 1
    } else {
        seen
    };
    let _ = advance_to(seq, next);
    Ok(pages)
}

/// A write keeps the log and the memtable in step: after the entry of a
/// write above the checkpoint went to the end of the log and its record into
/// the memtable, reading the log gives the entries with the new one at
/// their end, and replaying them gives the memtable as the write left it. So
/// what recovery rebuilds after a crash is what was committed.
pub proof fn lemma_write_keeps_log_and_memtable_in_step(
    mem: Seq<RecordModel>,
    es: Seq<WalEntryModel>,
    e: WalEntryModel,
    checkpoint: u64,
)
    requires
        crate::storage::wal::log_valid(es),
        crate::storage::wal::entry_valid(e),
        crate::storage::wal::enc_wal_entry(e).len() <= u64::MAX,
        e.seqno > checkpoint,
    ensures
        read_entries(
            crate::storage::wal::enc_log(es) + crate::storage::wal::enc_frame(
                crate::storage::wal::enc_wal_entry(e),
            ),
        ) == Ok::<Seq<WalEntryModel>, Error>(es.push(e)),
        replayed(mem, es.push(e), checkpoint) == applied(replayed(mem, es, checkpoint), e),
{
    crate::storage::wal::laws::lemma_append_then_read(es, e);
    assert(es.push(e).drop_last() =~= es);
    assert(es.push(e).last() == e);
}

/// Recovery from a log that holds nothing above the checkpoint, into an
/// empty memtable, changes neither the manifest nor the memtable and makes
/// no page: running recovery once more after it has absorbed the log is
/// without effect.
pub proof fn lemma_recovery_absorbed(es: Seq<WalEntryModel>, checkpoint: u64)
    requires
        forall|i: int| 0 <= i < es.len() ==> (#[trigger] es[i]).seqno <= checkpoint,
    ensures
        replayed(Seq::<RecordModel>::empty(), es, checkpoint).len() == 0,
{
    lemma_replayed_absorbed(Seq::empty(), es, checkpoint);
}

} // verus!
