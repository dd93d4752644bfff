//! Looking a key up in a page.

use vstd::prelude::*;
use crate::keys::{key_lt, key_order, KeyOrder};
use crate::storage::page::builder::{Page, PageModel};
use crate::storage::record::{records_view, Record, RecordModel};
use crate::storage::versions::{latest_visible, versions_of};

verus! {

/// What a page says of a key at a snapshot.
#[derive(Debug, PartialEq)]
pub enum PageLookupResult<'page> {
    /// The version that the snapshot sees.
    Found(&'page Record),
    /// The page holds no version of the key.
    NotFound,
    /// The page holds versions of the key, all of them above the snapshot.
    NotVisible,
}

/// The result of a lookup as a mathematical value.
pub enum LookupModel {
    Found(RecordModel),
    NotFound,
    NotVisible,
}

/// What a page says of `id` at `snapshot`. A key outside the range of ids
/// that the header names is not looked for among the records.
pub open spec fn page_lookup(p: PageModel, id: Seq<char>, snapshot: u64) -> LookupModel {
    if key_lt(id, p.header.min_id) || key_lt(p.header.max_id, id) {
        LookupModel::NotFound
    } else if versions_of(p.records, id).len() == 0 {
        LookupModel::NotFound
    } else {
        match latest_visible(versions_of(p.records, id), snapshot) {
            Some(r) => LookupModel::Found(r),
            None => LookupModel::NotVisible,
        }
    }
}

impl Page {
    /// Looks `id` up at the snapshot: of the versions of `id` in the page
    /// with a seqno not above the snapshot, the one with the largest seqno.
    pub fn get(&self, id: &str, snapshot_seqno: u64) -> (r: PageLookupResult<'_>)
        ensures
            match r {
                PageLookupResult::Found(rec) => page_lookup(self@, id@, snapshot_seqno)
                    == LookupModel::Found(rec@),
                PageLookupResult::NotFound => page_lookup(self@, id@, snapshot_seqno)
                    == LookupModel::NotFound,
                PageLookupResult::NotVisible => page_lookup(self@, id@, snapshot_seqno)
                    == LookupModel::NotVisible,
            },
    {
        if key_order(id, self.header.min_id.as_str()) == KeyOrder::Less {
            return PageLookupResult::NotFound;
        }
        if key_order(self.header.max_id.as_str(), id) == KeyOrder::Less {
            return PageLookupResult::NotFound;
        }
        let ghost all = records_view(self.records@);
        let mut any = false;
        let mut best: Option<usize> = None;
        let mut i: usize = 0;
        proof {
            assert(all.take(0) =~= Seq::<RecordModel>::empty());
        }
        while i < self.records.len()
            invariant
                0 <= i <= self.records@.len(),
                all == records_view(self.records@),
                any == (versions_of(all.take(i as int), id@).len() > 0),
                match best {
                    Some(k) => k < i && latest_visible(
                        versions_of(all.take(i as int), id@),
                        snapshot_seqno,
                    ) == Some(all[k as int]),
                    None => latest_visible(versions_of(all.take(i as int), id@), snapshot_seqno)
                        is None,
                },
            decreases self.records@.len() - i,
        {
            proof {
                let next = all.take(i + 1);
                assert(next.drop_last() =~= all.take(i as int));
                assert(next.last() == all[i as int]);
                let vs = versions_of(all.take(i as int), id@);
                assert(vs.push(all[i as int]).drop_last() =~= vs);
                assert(vs.push(all[i as int]).last() == all[i as int]);
            }
            let rec = &self.records[i];
            if key_order(rec.id.as_str(), id) == KeyOrder::Equal {
                any = true;
                if rec.seqno <= snapshot_seqno {
                    let better = match best {
                        Some(k) => self.records[k].seqno <= rec.seqno,
                        None => true,
                    };
                    if better {
                        best = Some(i);
                    }
                }
            }
            i += 1;
        }
        proof {
            assert(all.take(i as int) =~= all);
        }
        match best {
            Some(k) => PageLookupResult::Found(&self.records[k]),
            None => if any {
                PageLookupResult::NotVisible
            } else {
                PageLookupResult::NotFound
            },
        }
    }
}

} // verus!
