//! Reading: what a published snapshot shows.

use std::sync::Arc;

use vstd::prelude::*;
use vstd::string::*;

use crate::error::{ErrorModel, StoreError};
use crate::layout::Location;
use crate::rollup::{
    has_row, lemma_more_keys_count_more, object_count, recount, segments, segments_of, texts, under,
    Aggregate,
};
use crate::sorting::{keys_differ, listed_models, sort_rows, sorted, Listed};
use crate::state::{Place, Published};
use crate::table::{lemma_slot, lemma_slot_is, lookup, slot, Rows};
use crate::text::decimal;
use crate::visible::{follows, whole};
use crate::wal::{logged_models, scan_of, Lsn, Record, Wal};

use super::cell::StoreView;
use super::{seg_name, share, Snap, Store};

verus! {

/// Where the bytes of a value are.
pub struct ReadAt<F> {
    pub file: Arc<F>,
    pub offset: u64,
    pub len: u32,
}

impl<F> ReadAt<F> {
    pub open spec fn model(&self) -> Place<F> {
        (*self.file, self.offset, self.len)
    }
}

/// What was found, as a place.
pub open spec fn found<F>(res: Result<Option<ReadAt<F>>, StoreError>) -> Result<
    Option<Place<F>>,
    ErrorModel,
> {
    match res {
        Ok(Some(r)) => Ok(Some(r.model())),
        Ok(None) => Ok(None),
        Err(e) => Err(e@),
    }
}

/// `a` holds the totals of `prefix` over the live objects.
pub open spec fn totals<F>(p: Published<F>, prefix: Seq<char>, a: Aggregate) -> bool {
    (a.object_count as nat, a.byte_count as nat) == recount(p.live, prefix)
}

/// `rows` are the committed keys under `prefix`, in order.
pub open spec fn lists_under<F>(p: Published<F>, prefix: Seq<char>, rows: Seq<Listed>) -> bool {
    &&& sorted(rows)
    &&& forall|l: Listed| #[trigger] rows.contains(l) <==> p.lists(l) && under(l.0, prefix)
}

impl<F> Snap<F> {
    fn place(&self, seg: u64, offset: u64, len: u32) -> (res: Result<ReadAt<F>, StoreError>)
        ensures
            match res {
                Ok(r) => Ok(r.model()),
                Err(e) => Err(e@),
            } == self.model().place(seg, offset, len),
    {
        match self.files.get(&seg) {
            Some(file) => Ok(ReadAt { file: share(file), offset, len }),
            None => {
                let mut msg = "segment ".to_string();
                msg.append(seg_name(seg).as_str());
                msg.append(" not open");
                Err(StoreError::Corrupt(msg))
            },
        }
    }

    /// Where the value of `key` is to be read.
    pub fn get(&self, key: &str) -> (res: Result<Option<ReadAt<F>>, StoreError>)
        requires
            self.wf(),
        ensures
            found(res) == self.model().read(key@),
    {
        match self.index.get(key) {
            Some(at) => match self.place(at.seg, at.offset, at.len) {
                Ok(r) => Ok(Some(r)),
                Err(e) => Err(e),
            },
            None => Ok(None),
        }
    }

    /// Where the value of `key` is to be read, if its put LSN is at or below
    /// `committed`.
    pub fn get_upto(&self, key: &str, committed: Lsn) -> (res: Result<
        Option<ReadAt<F>>,
        StoreError,
    >)
        requires
            self.wf(),
        ensures
            found(res) == self.model().read_upto(key@, committed),
    {
        match self.index.get(key) {
            Some(at) => {
                if at.lsn > committed {
                    return Ok(None);
                }
                match self.place(at.seg, at.offset, at.len) {
                    Ok(r) => Ok(Some(r)),
                    Err(e) => Err(e),
                }
            },
            None => Ok(None),
        }
    }

    /// Where the value written by the put at `lsn` is to be read.
    pub fn value_at(&self, lsn: Lsn) -> (res: Result<ReadAt<F>, StoreError>)
        ensures
            match res {
                Ok(r) => Ok(r.model()),
                Err(e) => Err(e@),
            } == self.model().read_put(lsn),
    {
        match self.put_locations.get(&lsn) {
            Some(p) => self.place(p.seg, p.offset, p.len),
            None => {
                let mut msg = "no put at lsn ".to_string();
                msg.append(decimal(lsn).as_str());
                Err(StoreError::Corrupt(msg))
            },
        }
    }

    /// The totals of `prefix`.
    pub fn capacity(&self, prefix: &str) -> (a: Aggregate)
        requires
            self.wf(),
        ensures
            totals(self.model(), prefix@, a),
    {
        self.rollup.get(prefix)
    }

    /// All keys, in the order in which they were first put.
    pub fn keys(&self) -> (keys: Vec<String>)
        ensures
            texts(keys@) == self.model().index.map_values(|r: (Seq<char>, Location)| r.0),
    {
        let mut keys: Vec<String> = Vec::new();
        let ghost rows = self.index@;
        let n: usize = self.index.len();
        for i in 0..n
            invariant
                rows == self.index@,
                n == rows.len(),
                texts(keys@) == rows.take(i as int).map_values(|r: (Seq<char>, Location)| r.0),
        {
            let key = self.index.key_at(i).clone();
            proof {
                assert(texts(keys@.push(key)) =~= texts(keys@).push(key@));
                assert(rows.take(i + 1) =~= rows.take(i as int).push(rows[i as int]));
                assert(rows.take(i + 1).map_values(|r: (Seq<char>, Location)| r.0) =~= rows.take(
                    i as int,
                ).map_values(|r: (Seq<char>, Location)| r.0).push(rows[i as int].0));
            }
            keys.push(key);
        }
        assert(rows.take(rows.len() as int) =~= rows);
        keys
    }

    /// The committed keys whose parts start with `parts` and go on, or all of
    /// them, in the order in which they were first put.
    fn select(&self, parts: Option<&Vec<String>>) -> (rows: Vec<(String, u32)>)
        requires
            self.wf(),
        ensures
            keys_differ(listed_models(rows@)),
            forall|l: Listed|
                #[trigger] listed_models(rows@).contains(l) <==> self.model().lists(l) && match parts {
                    Some(ps) => starts_with(segments(l.0), texts(ps@)),
                    None => true,
                },
    {
        let mut rows: Vec<(String, u32)> = Vec::new();
        let ghost index = self.index@;
        let ghost wanted = |key: Seq<char>|
            match parts {
                Some(ps) => starts_with(segments(key), texts(ps@)),
                None => true,
            };
        let n: usize = self.index.len();
        for i in 0..n
            invariant
                self.wf(),
                index == self.index@,
                n == index.len(),
                wanted == (|key: Seq<char>|
                    match parts {
                        Some(ps) => starts_with(segments(key), texts(ps@)),
                        None => true,
                    }),
                forall|a: int|
                    0 <= a < rows@.len() ==> among(
                        index,
                        i as int,
                        (#[trigger] listed_models(rows@)[a]).0,
                    ),
                keys_differ(listed_models(rows@)),
                forall|b: int|
                    0 <= b < i && (#[trigger] index[b]).1.lsn <= self.committed && wanted(index[b].0)
                        ==> listed_models(rows@).contains((index[b].0, index[b].1.len)),
                forall|a: int|
                    0 <= a < rows@.len() ==> self.model().lists(#[trigger] listed_models(rows@)[a])
                        && wanted(listed_models(rows@)[a].0),
        {
            let at = self.index.value_at(i);
            let key = self.index.key_at(i);
            let ghost before = listed_models(rows@);
            proof {
                self.index.lemma_distinct();
                lemma_slot_is(index, i as int);
            }
            let take: bool = at.lsn <= self.committed && match parts {
                Some(ps) => has_prefix(&segments_of(key.as_str()), ps),
                None => true,
            };
            if take {
                let row = (key.clone(), at.len);
                proof {
                    assert(listed_models(rows@.push(row)) =~= before.push((key@, at.len)));
                    assert forall|a: int| 0 <= a < before.len() implies (#[trigger] before[a]).0
                        != key@ by {
                        let b = choose|b: int| 0 <= b < i && (#[trigger] index[b]).0 == before[a].0;
                        assert(index[b].0 != index[i as int].0);
                    }
                }
                rows.push(row);
                assert(listed_models(rows@)[before.len() as int] == (key@, at.len));
            }
            proof {
                let after = listed_models(rows@);
                assert forall|a: int| 0 <= a < rows@.len() implies among(
                    index,
                    i + 1,
                    (#[trigger] after[a]).0,
                ) by {
                    if a < before.len() {
                        assert(after[a] == before[a]);
                        let b = choose|b: int| 0 <= b < i && (#[trigger] index[b]).0 == before[a].0;
                        assert(index[b].0 == after[a].0);
                    } else {
                        assert(index[i as int].0 == after[a].0);
                    }
                }
                assert forall|b: int|
                    0 <= b < i + 1 && (#[trigger] index[b]).1.lsn <= self.committed && wanted(
                        index[b].0,
                    ) implies after.contains((index[b].0, index[b].1.len)) by {
                    if b < i {
                        let a = choose|a: int|
                            0 <= a < before.len() && before[a] == (index[b].0, index[b].1.len);
                        assert(after[a] == before[a]);
                    }
                }
                assert forall|a: int, b: int| 0 <= a < b < after.len() implies (#[trigger] after[a]).0
                    != (#[trigger] after[b]).0 by {
                    if b < before.len() {
                        assert(before[a].0 != before[b].0);
                    } else {
                        assert(after[a] == before[a]);
                    }
                }
                assert forall|a: int| 0 <= a < rows@.len() implies self.model().lists(
                    #[trigger] after[a],
                ) && wanted(after[a].0) by {
                    if a < before.len() {
                        assert(after[a] == before[a]);
                    }
                }
            }
        }
        proof {
            let all = listed_models(rows@);
            assert forall|l: Listed| #[trigger] all.contains(l) <==> self.model().lists(l) && wanted(
                l.0,
            ) by {
                if all.contains(l) {
                    let a = choose|a: int| 0 <= a < all.len() && all[a] == l;
                    assert(self.model().lists(all[a]));
                }
                if self.model().lists(l) && wanted(l.0) {
                    lemma_slot(index, l.0);
                    let b = slot(index, l.0);
                    assert(index[b].0 == l.0);
                }
            }
        }
        rows
    }

    /// The committed keys with the lengths of their values.
    pub fn committed_keys(&self) -> (rows: Vec<(String, u32)>)
        requires
            self.wf(),
        ensures
            keys_differ(listed_models(rows@)),
            forall|l: Listed|
                #[trigger] listed_models(rows@).contains(l) <==> self.model().lists(l),
    {
        self.select(None)
    }

    /// Committed keys under `prefix`, using the same proper-prefix rule as
    /// the rollup aggregates. Sorted by key.
    pub fn keys_with_prefix(&self, prefix: &str) -> (rows: Vec<(String, u32)>)
        requires
            self.wf(),
        ensures
            lists_under(self.model(), prefix@, listed_models(rows@)),
    {
        let parts = segments_of(prefix);
        let chosen = self.select(Some(&parts));
        sort_rows(&chosen)
    }
}

/// `key` is that of one of the first `n` rows.
spec fn among(index: Rows<Location>, n: int, key: Seq<char>) -> bool {
    exists|b: int| 0 <= b < n && (#[trigger] index[b]).0 == key
}

/// `ps` are the first of `ks`, which has more.
pub open spec fn starts_with(ks: Seq<Seq<char>>, ps: Seq<Seq<char>>) -> bool {
    ps.len() < ks.len() && ps == ks.take(ps.len() as int)
}

fn has_prefix(ks: &Vec<String>, ps: &Vec<String>) -> (r: bool)
    ensures
        r == starts_with(texts(ks@), texts(ps@)),
{
    if ps.len() >= ks.len() {
        return false;
    }
    for i in 0..ps.len()
        invariant
            ps@.len() < ks@.len(),
            forall|j: int| 0 <= j < i ==> (#[trigger] ps@[j])@ == ks@[j]@,
    {
        if !(ps[i] == ks[i]) {
            assert(texts(ps@)[i as int] != texts(ks@).take(ps@.len() as int)[i as int]);
            return false;
        }
    }
    assert(texts(ps@) =~= texts(ks@).take(ps@.len() as int));
    true
}

/// `key` is listed in `rows`.
pub open spec fn names(rows: Seq<Listed>, key: Seq<char>) -> bool {
    exists|i: int| 0 <= i < rows.len() && (#[trigger] rows[i]).0 == key
}

/// A snapshot that follows another counts no fewer objects.
proof fn lemma_counts_grow<F>(p: Published<F>, q: Published<F>, prefix: Seq<char>)
    requires
        follows(p, q),
        whole(q),
    ensures
        object_count(q.live, prefix) <= object_count(p.live, prefix),
{
    assert forall|i: int, j: int| 0 <= i < j < q.live.len() implies (#[trigger] q.live[i]).0 != (
    #[trigger] q.live[j]).0 by {
        assert(q.index[i].0 != q.index[j].0);
    }
    assert forall|i: int| 0 <= i < q.live.len() implies has_row(
        p.live,
        (#[trigger] q.live[i]).0,
    ) by {
        lemma_slot_is(q.index, i);
        let key = q.index[i].0;
        assert(lookup(q.index, key) is Some);
        lemma_slot(p.index, key);
        assert(p.live[slot(p.index, key)].0 == key);
    }
    lemma_more_keys_count_more(q.live, p.live, prefix);
}

impl<F> StoreView<F> {
    /// A snapshot that the store published: the one that it showed when the
    /// handle was made, or a later one. Which one depends on when the writer
    /// publishes.
    pub fn snapshot(&self) -> (snap: Arc<Snap<F>>)
        ensures
            snap.wf(),
            follows(snap.model(), self.since()),
    {
        self.load()
    }

    /// Where the value of `key` is to be read, in a snapshot that the store
    /// published.
    pub fn get(&self, key: &str) -> (res: Result<Option<ReadAt<F>>, StoreError>)
        ensures
            exists|p: Published<F>|
                follows(p, self.since()) && found(res) == #[trigger] p.read(key@),
            res is Ok,
            lookup(self.since().index, key@) is Some ==> res->Ok_0 is Some,
    {
        let snap = self.load();
        let res = snap.get(key);
        proof {
            assert(found(res) == snap.model().read(key@));
            lemma_slot(snap.model().index, key@);
        }
        res
    }

    /// Like [`StoreView::get`], for values whose put LSN is at or below
    /// `committed`. What the store showed when the handle was made is found,
    /// unless it was put above that or overwritten since.
    pub fn get_upto(&self, key: &str, committed: Lsn) -> (res: Result<
        Option<ReadAt<F>>,
        StoreError,
    >)
        ensures
            exists|p: Published<F>|
                follows(p, self.since()) && found(res) == #[trigger] p.read_upto(key@, committed)
                    && (res->Ok_0 is Some <==> lookup(p.index, key@) is Some && lookup(
                    p.index,
                    key@,
                )->0.lsn <= committed),
            res is Ok,
            lookup(self.since().index, key@) is Some && lookup(
                self.since().index,
                key@,
            )->0.lsn > committed ==> res->Ok_0 is None,
            lookup(self.since().index, key@) is Some && committed == u64::MAX ==> res->Ok_0 is Some,
    {
        let snap = self.load();
        let res = snap.get_upto(key, committed);
        proof {
            assert(found(res) == snap.model().read_upto(key@, committed));
            lemma_slot(snap.model().index, key@);
        }
        res
    }

    /// The totals of `prefix`, in a snapshot that the store published. All
    /// that the store showed when the handle was made is counted.
    pub fn capacity(&self, prefix: &str) -> (a: Aggregate)
        ensures
            exists|p: Published<F>| follows(p, self.since()) && #[trigger] totals(p, prefix@, a),
            whole(self.since()) ==> object_count(self.since().live, prefix@) <= a.object_count,
    {
        let snap = self.load();
        let a = snap.capacity(prefix);
        proof {
            assert(totals(snap.model(), prefix@, a));
            if whole(self.since()) {
                lemma_counts_grow(snap.model(), self.since(), prefix@);
            }
        }
        a
    }

    /// Committed keys under `prefix`, in a snapshot that the store published.
    /// All that the store showed when the handle was made are listed.
    pub fn keys_with_prefix(&self, prefix: &str) -> (rows: Vec<(String, u32)>)
        ensures
            exists|p: Published<F>|
                follows(p, self.since()) && #[trigger] lists_under(
                    p,
                    prefix@,
                    listed_models(rows@),
                ),
            forall|l: Listed| #[trigger]
                self.since().lists(l) && under(l.0, prefix@) ==> names(listed_models(rows@), l.0),
    {
        let snap = self.load();
        let rows = snap.keys_with_prefix(prefix);
        proof {
            let p = snap.model();
            assert(lists_under(p, prefix@, listed_models(rows@)));
            assert forall|l: Listed| #[trigger]
                self.since().lists(l) && under(l.0, prefix@) implies names(
                listed_models(rows@),
                l.0,
            ) by {
                lemma_slot(p.index, l.0);
                let at = p.index[slot(p.index, l.0)].1;
                assert(lookup(p.index, l.0) == Some(at));
                assert(p.lists((l.0, at.len)));
                assert(listed_models(rows@).contains((l.0, at.len)));
            }
        }
        rows
    }
}

impl<F> Store<F> {
    /// Where the committed value of `key` is to be read.
    pub fn get(&self, key: &str) -> (res: Result<Option<ReadAt<F>>, StoreError>)
        requires
            self.wf(),
        ensures
            found(res) == self.shown().read(key@),
    {
        self.published.get(key)
    }

    /// Like [`Store::get`], but only for values whose put LSN is at or
    /// below `committed`. This is the read-your-writes gate used by the
    /// leader to serve reads only up to its commit index.
    pub fn get_upto(&self, key: &str, committed: Lsn) -> (res: Result<
        Option<ReadAt<F>>,
        StoreError,
    >)
        requires
            self.wf(),
        ensures
            found(res) == self.shown().read_upto(key@, committed),
    {
        self.published.get_upto(key, committed)
    }

    /// Where the value written by the put at `lsn` is to be read (used for
    /// backfill).
    pub fn value_at(&self, lsn: Lsn) -> (res: Result<ReadAt<F>, StoreError>)
        ensures
            match res {
                Ok(r) => Ok(r.model()),
                Err(e) => Err(e@),
            } == self.shown().read_put(lsn),
    {
        self.published.value_at(lsn)
    }

    pub fn next_lsn(&self) -> (lsn: Lsn)
        ensures
            lsn == self.state().wal.next_lsn,
    {
        self.inner.wal.next_lsn()
    }

    pub fn committed_lsn(&self) -> (lsn: Lsn)
        ensures
            lsn == self.shown().committed,
    {
        self.published.committed
    }

    /// Block LSN of the most recent durable `Commit` record. A follower
    /// asks the leader for records strictly above this.
    pub fn last_commit_block(&self) -> (lsn: Lsn)
        ensures
            lsn == self.state().durable_commit,
    {
        self.inner.durable_commit
    }

    /// Highest record LSN that has been applied (durable or not).
    pub fn applied_upto(&self) -> (lsn: Lsn)
        ensures
            lsn == self.state().layout.applied_upto,
    {
        self.inner.applied_upto
    }

    /// All keys, in the order in which they were first put.
    pub fn keys(&self) -> (keys: Vec<String>)
        ensures
            texts(keys@) == self.shown().index.map_values(|r: (Seq<char>, Location)| r.0),
    {
        self.published.keys()
    }

    /// The committed keys with the lengths of their values.
    pub fn committed_keys(&self) -> (rows: Vec<(String, u32)>)
        requires
            self.wf(),
        ensures
            keys_differ(listed_models(rows@)),
            forall|l: Listed|
                #[trigger] listed_models(rows@).contains(l) <==> self.shown().lists(l),
    {
        self.published.committed_keys()
    }

    /// Every valid record of the store's WAL file, for a follower that fell
    /// behind. No commit filtering is applied.
    pub fn scan_wal(file: &[u8]) -> (records: Vec<(Lsn, Record)>)
        ensures
            logged_models(records@) == scan_of(file@),
    {
        Wal::scan(file)
    }

    /// The totals of `prefix`.
    pub fn capacity(&self, prefix: &str) -> (a: Aggregate)
        requires
            self.wf(),
        ensures
            totals(self.shown(), prefix@, a),
    {
        self.published.capacity(prefix)
    }

    /// Committed keys under `prefix`, using the same proper-prefix rule as
    /// the rollup aggregates. Sorted by key.
    pub fn keys_with_prefix(&self, prefix: &str) -> (rows: Vec<(String, u32)>)
        requires
            self.wf(),
        ensures
            lists_under(self.shown(), prefix@, listed_models(rows@)),
    {
        self.published.keys_with_prefix(prefix)
    }
}

/// How reading a value of `len` bytes goes on after `filled` bytes, when the
/// next read gave `n` more: the number of bytes there now, or the error of a
/// file that ended early.
pub fn read_value(filled: usize, n: usize, len: usize) -> (res: Result<usize, StoreError>)
    requires
        filled < len,
        n <= len - filled,
    ensures
        match res {
            Ok(now) => n > 0 && now == filled + n,
            Err(e) => n == 0 && e@ == ErrorModel::Corrupt("short segment read"@),
        },
{
    if n == 0 {
        return Err(StoreError::Corrupt("short segment read".to_string()));
    }
    Ok(filled + n)
}

} // verus!
