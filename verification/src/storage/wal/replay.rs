//! Replaying the log at startup.

use vstd::prelude::*;
use crate::error::Error;
use crate::storage::wal::{entries_view, read_entries, Wal, WalEntry, WalEntryModel};

verus! {

/// Every entry has a seqno above that of the entry before it, and the first
/// has one above zero.
pub open spec fn strictly_increasing(es: Seq<WalEntryModel>) -> bool {
    &&& forall|i: int| 0 <= i < es.len() ==> (#[trigger] es[i]).seqno > 0
    &&& forall|i: int, j: int|
        0 <= i < j < es.len() ==> (#[trigger] es[i]).seqno < (#[trigger] es[j]).seqno
}

/// The seqno of the last entry, zero where there is none.
pub open spec fn last_seqno(es: Seq<WalEntryModel>) -> u64 {
    if es.len() == 0 {
        0
    } else {
        es.last().seqno
    }
}

/// The entries of a log that was replayed, and the largest seqno among them.
#[derive(Debug)]
pub struct ReplayResult {
    pub entries: Vec<WalEntry>,
    pub max_seqno: u64,
}

impl ReplayResult {
    /// Checks that the seqnos go up strictly. Entries whose seqnos do not
    /// are refused as corrupt.
    pub fn new(entries: Vec<WalEntry>) -> (r: Result<Self, Error>)
        ensures
            r is Ok <==> strictly_increasing(entries_view(entries@)),
            r is Err ==> r->Err_0 == Error::Corrupt,
            r matches Ok(replay) ==> replay.entries@ == entries@ && replay.max_seqno == last_seqno(
                entries_view(entries@),
            ),
    {
        let ghost all = entries_view(entries@);
        let mut max_seqno: u64 = 0;
        let mut i: usize = 0;
        while i < entries.len()
            invariant
                0 <= i <= entries@.len(),
                all == entries_view(entries@),
                strictly_increasing(all.take(i as int)),
                max_seqno == last_seqno(all.take(i as int)),
            decreases entries@.len() - i,
        {
            if entries[i].seqno <= max_seqno {
                proof {
                    if i > 0 {
                        assert(all.take(i as int).last() == all[i - 1]);
                    }
                    assert(all[i as int].seqno <= max_seqno);
                }
                return Err(Error::Corrupt);
            }
            proof {
                let next = all.take(i + 1);
                let prev = all.take(i as int);
                assert forall|a: int, c: int| 0 <= a < c < next.len() implies (
                #[trigger] next[a]).seqno < (#[trigger] next[c]).seqno by {
                    if c < i {
                        assert(prev[a] == next[a] && prev[c] == next[c]);
                    } else if a < i - 1 {
                        assert(prev[a] == next[a]);
                        assert(prev[i - 1].seqno == max_seqno);
                        assert(prev[a].seqno < prev[i - 1].seqno);
                    } else {
                        assert(prev[i - 1] == next[a]);
                    }
                }
                assert forall|a: int| 0 <= a < next.len() implies (#[trigger] next[a]).seqno
                    > 0 by {
                    if a < i {
                        assert(prev[a] == next[a]);
                    }
                }
            }
            max_seqno = entries[i].seqno;
            i += 1;
        }
        proof {
            assert(all.take(i as int) =~= all);
        }
        Ok(ReplayResult { entries, max_seqno })
    }

    /// Reads the log and checks the order of its seqnos.
    pub fn replay_wal(wal: &Wal) -> (r: Result<ReplayResult, Error>)
        ensures
            match r {
                Ok(replay) => read_entries(wal@) == Ok::<Seq<WalEntryModel>, Error>(
                    entries_view(replay.entries@),
                ) && strictly_increasing(entries_view(replay.entries@)) && replay.max_seqno
                    == last_seqno(entries_view(replay.entries@)),
                Err(e) => e == Error::Corrupt && (read_entries(wal@) is Err || !strictly_increasing(
                    read_entries(wal@)->Ok_0,
                )),
            },
    {
        match wal.read_all() {
            Err(e) => {
                proof {
                    lemma_read_entries_error(wal@);
                }
                Err(e)
            },
            Ok(entries) => ReplayResult::new(entries),
        }
    }
}

/// A log that cannot be read is corrupt: there is no other error.
pub proof fn lemma_read_entries_error(s: Seq<u8>)
    ensures
        read_entries(s) is Err ==> read_entries(s)->Err_0 == Error::Corrupt,
    decreases s.len(),
{
    match crate::storage::wal::scan_frame(s) {
        crate::storage::wal::FrameScan::Frame { payload, after } => {
            if after.len() < s.len() {
                lemma_read_entries_error(after);
            }
        },
        _ => {},
    }
}

} // verus!
