//! What holds of reading and rewriting a log.

use vstd::prelude::*;
use crate::error::Error;
use crate::codec::{lemma_enc_parse_u64, lemma_parse_enc_u64, parse_u64, enc_u64};
use crate::storage::wal::{
    decode_wal_entry, enc_frame, enc_log, enc_wal_entry, entries_above, entry_valid,
    lemma_decode_wal_entry, lemma_enc_scan_frame, lemma_parse_enc_wal_entry, lemma_scan_enc_frame,
    log_valid, read_entries, rewrite_bytes, scan_frame, FrameScan, WalEntryModel,
};

verus! {

/// A log that holds the frames of some entries, and after them nothing that
/// reads as a frame, is read as those entries.
pub proof fn lemma_read_enc_log(es: Seq<WalEntryModel>, tail: Seq<u8>)
    requires
        log_valid(es),
        !(scan_frame(tail) is Frame),
    ensures
        read_entries(enc_log(es) + tail) == Ok::<Seq<WalEntryModel>, Error>(es),
    decreases es.len(),
{
    if es.len() == 0 {
        assert(enc_log(es) + tail =~= tail);
        assert(es =~= Seq::<WalEntryModel>::empty());
    } else {
        let e = es[0];
        let rest = es.drop_first();
        let payload = enc_wal_entry(e);
        let after = enc_log(rest) + tail;
        assert(enc_log(es) + tail =~= enc_frame(payload) + after);
        lemma_scan_enc_frame(payload, after);
        lemma_parse_enc_wal_entry(e, Seq::empty());
        assert(payload + Seq::<u8>::empty() =~= payload);
        assert(decode_wal_entry(payload) == Some(e));
        assert forall|i: int| 0 <= i < rest.len() implies entry_valid(#[trigger] rest[i])
            && enc_wal_entry(rest[i]).len() <= u64::MAX by {
            assert(rest[i] == es[i + 1]);
        }
        lemma_read_enc_log(rest, tail);
        assert(seq![e] + rest =~= es);
    }
}

/// A frame that was cut short does not read as a frame.
pub proof fn lemma_torn_frame(payload: Seq<u8>, k: int)
    requires
        payload.len() <= u64::MAX,
        0 <= k < enc_frame(payload).len(),
    ensures
        !(scan_frame(enc_frame(payload).take(k)) is Frame),
{
    let n = payload.len() as u64;
    let frame = enc_frame(payload);
    let t = frame.take(k);
    lemma_parse_enc_u64(n, Seq::empty());
    assert(frame.len() == n + 16);
    if k >= 8 {
        assert(t.subrange(0, 8) =~= enc_u64(n));
        assert(enc_u64(n) + t.skip(8) =~= t);
        lemma_parse_enc_u64(n, t.skip(8));
        let rest = t.skip(8);
        if rest.len() >= n {
            assert(rest.skip(n as int).len() < 8);
        }
    }
}

/// Reading a log whose last frame was cut short gives the entries before
/// it, and no error.
pub proof fn lemma_read_all_truncated(es: Seq<WalEntryModel>, last: WalEntryModel, k: int)
    requires
        log_valid(es),
        entry_valid(last),
        enc_wal_entry(last).len() <= u64::MAX,
        0 <= k < enc_frame(enc_wal_entry(last)).len(),
    ensures
        read_entries(enc_log(es) + enc_frame(enc_wal_entry(last)).take(k)) == Ok::<
            Seq<WalEntryModel>,
            Error,
        >(es),
{
    lemma_torn_frame(enc_wal_entry(last), k);
    lemma_read_enc_log(es, enc_frame(enc_wal_entry(last)).take(k));
}

/// Where a log can be rewritten it can be read, and what the rewriting
/// leaves reads as the entries above the checkpoint, in their order.
pub proof fn lemma_rewrite_keeps_entries_above(s: Seq<u8>, checkpoint: u64)
    requires
        rewrite_bytes(s, checkpoint) is Ok,
    ensures
        read_entries(s) is Ok,
        read_entries(rewrite_bytes(s, checkpoint)->Ok_0) == Ok::<Seq<WalEntryModel>, Error>(
            entries_above(read_entries(s)->Ok_0, checkpoint),
        ),
    decreases s.len(),
{
    let nothing = Seq::<u8>::empty();
    assert(scan_frame(nothing) is End);
    match scan_frame(s) {
        FrameScan::Frame { payload, after } => {
            if after.len() < s.len() {
                lemma_enc_scan_frame(s);
                let e = decode_wal_entry(payload)->0;
                lemma_rewrite_keeps_entries_above(after, checkpoint);
                let rest_out = rewrite_bytes(after, checkpoint)->Ok_0;
                let more = read_entries(after)->Ok_0;
                let all = seq![e] + more;
                assert(read_entries(s) == Ok::<Seq<WalEntryModel>, Error>(all));
                assert(all.drop_first() =~= more);
                assert(all[0] == e);
                if e.seqno > checkpoint {
                    lemma_scan_enc_frame(payload, rest_out);
                }
            }
        },
        _ => {},
    }
}

/// Rewriting a log in which no entry is above the checkpoint leaves the log
/// empty.
pub proof fn lemma_rewrite_leaves_nothing(s: Seq<u8>, checkpoint: u64)
    requires
        rewrite_bytes(s, checkpoint) is Ok,
        forall|i: int|
            0 <= i < read_entries(s)->Ok_0.len() ==> (#[trigger] read_entries(s)->Ok_0[i]).seqno
                <= checkpoint,
    ensures
        rewrite_bytes(s, checkpoint) == Ok::<Seq<u8>, Error>(Seq::empty()),
    decreases s.len(),
{
    match scan_frame(s) {
        FrameScan::Frame { payload, after } => {
            if after.len() < s.len() {
                let e = decode_wal_entry(payload)->0;
                let more = read_entries(after)->Ok_0;
                lemma_rewrite_keeps_entries_above(after, checkpoint);
                let all = seq![e] + more;
                assert(read_entries(s) == Ok::<Seq<WalEntryModel>, Error>(all));
                let whole = read_entries(s)->Ok_0;
                assert(whole == all);
                assert(whole[0] == e);
                assert(e.seqno <= checkpoint);
                assert forall|i: int| 0 <= i < more.len() implies (#[trigger] more[i]).seqno
                    <= checkpoint by {
                    assert(whole[i + 1] == more[i]);
                    assert(whole[i + 1].seqno <= checkpoint);
                }
                lemma_rewrite_leaves_nothing(after, checkpoint);
            }
        },
        _ => {},
    }
}

/// Appending an entry to a log that reads without a remainder adds the
/// entry at the end of what is read.
pub proof fn lemma_append_then_read(es: Seq<WalEntryModel>, e: WalEntryModel)
    requires
        log_valid(es),
        entry_valid(e),
        enc_wal_entry(e).len() <= u64::MAX,
    ensures
        enc_log(es.push(e)) == enc_log(es) + enc_frame(enc_wal_entry(e)),
        read_entries(enc_log(es) + enc_frame(enc_wal_entry(e))) == Ok::<
            Seq<WalEntryModel>,
            Error,
        >(es.push(e)),
    decreases es.len(),
{
    lemma_enc_log_push(es, e);
    assert(scan_frame(Seq::<u8>::empty()) is End);
    assert forall|i: int| 0 <= i < es.push(e).len() implies entry_valid(
        #[trigger] es.push(e)[i],
    ) && enc_wal_entry(es.push(e)[i]).len() <= u64::MAX by {
        if i < es.len() {
            assert(es.push(e)[i] == es[i]);
        }
    }
    lemma_read_enc_log(es.push(e), Seq::empty());
    assert(enc_log(es.push(e)) + Seq::<u8>::empty() =~= enc_log(es.push(e)));
}

/// One entry more at the end adds its frame at the end.
pub proof fn lemma_enc_log_push(es: Seq<WalEntryModel>, e: WalEntryModel)
    ensures
        enc_log(es.push(e)) == enc_log(es) + enc_frame(enc_wal_entry(e)),
    decreases es.len(),
{
    if es.len() == 0 {
        assert(es.push(e).drop_first() =~= Seq::<WalEntryModel>::empty());
        assert(enc_log(es.push(e).drop_first()) =~= Seq::<u8>::empty());
        assert(es.push(e)[0] == e);
        assert(enc_log(es.push(e)) =~= enc_log(es) + enc_frame(enc_wal_entry(e)));
    } else {
        assert(es.push(e).drop_first() =~= es.drop_first().push(e));
        lemma_enc_log_push(es.drop_first(), e);
        assert(enc_log(es.push(e)) =~= enc_log(es) + enc_frame(enc_wal_entry(e)));
    }
}

} // verus!
