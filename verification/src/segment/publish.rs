//! Publishing: what readers are shown, and how it gets to them.

use std::collections::BTreeMap;
use std::sync::Arc;

use vstd::prelude::*;

use crate::layout::{Location, PutModel};
use crate::ordered::{keys_of, lists};
use crate::rollup::Rollup;
use crate::table::{lemma_put, lemma_slot, lookup, put, slot, Table};
use crate::visible::{
    at_least, blank, caught_up, fits, follows, is_newest, keeps_keys, lemma_blank,
    lemma_byte_count_front, lemma_newest_is, lemma_visible, lengths_of, location_of, newest,
    readable, shown_of, shows, visible, whole,
};
use crate::wal::Lsn;

use super::cell::StoreView;
use super::{handles, put_models, share, Inner, Snap, Store};

verus! {

impl<F> Inner<F> {
    /// Of each key the newest put at or below what is committed.
    fn newest(&self) -> (found: Table<Location>)
        ensures
            found.wf(),
            forall|key: Seq<char>| #[trigger]
                lookup(found@, key) == newest(self.layout().puts, key, self.committed_lsn),
    {
        let ids = keys_of(&self.put_locations);
        let ghost puts = self.layout().puts;
        let c: Lsn = self.committed_lsn;
        let mut found: Table<Location> = Table::new();
        for i in 0..ids.len()
            invariant
                found.wf(),
                puts == put_models(self.put_locations@),
                c == self.committed_lsn,
                lists(ids@, self.put_locations@.dom()),
                forall|key: Seq<char>|
                    newest_among(puts, ids@.take(i as int), key, c, #[trigger] lookup(found@, key)),
        {
            let id: u64 = ids[i];
            let ghost before = found@;
            let ghost done = ids@.take(i as int);
            let ghost more = ids@.take(i + 1);
            assert(ids@.contains(id));
            assert(self.put_locations@.dom().contains(id));
            proof {
                found.lemma_distinct();
                assert(more =~= done.push(id));
            }
            if let Some(p) = self.put_locations.get(&id) {
                if id <= c {
                    let at = Location { seg: p.seg, offset: p.offset, len: p.len, lsn: id };
                    found.insert(p.key.as_str(), at);
                    assert(at == location_of(puts, id));
                }
                proof {
                    assert(puts[id] == p@);
                    assert forall|key: Seq<char>| newest_among(
                        puts,
                        more,
                        key,
                        c,
                        #[trigger] lookup(found@, key),
                    ) by {
                        assert(newest_among(puts, done, key, c, lookup(before, key)));
                        if id <= c {
                            lemma_put(before, p.key@, location_of(puts, id), key);
                        }
                        lemma_newest_among_push(puts, ids@, i as int, key, c, lookup(before, key));
                    }
                }
            }
        }
        proof {
            assert(ids@.take(ids@.len() as int) =~= ids@);
            assert forall|key: Seq<char>| #[trigger] lookup(found@, key) == newest(
                puts,
                key,
                c,
            ) by {
                assert(newest_among(puts, ids@, key, c, lookup(found@, key)));
                lemma_newest_among_all(puts, ids@, key, c, lookup(found@, key));
            }
        }
        found
    }

    /// Whether everything that was put is committed.
    pub(super) fn caught_up(&self) -> (yes: bool)
        ensures
            yes == caught_up(self.layout()),
    {
        let ghost index = self.index@;
        let c: Lsn = self.committed_lsn;
        let n: usize = self.index.len();
        for i in 0..n
            invariant
                n == index.len(),
                index == self.index@,
                index == self.layout().index,
                c == self.layout().committed_lsn,
                c == self.committed_lsn,
                forall|j: int| 0 <= j < i ==> (#[trigger] index[j]).1.lsn <= c,
        {
            if self.index.value_at(i).lsn > c {
                assert(index[i as int].1.lsn > c);
                return false;
            }
        }
        true
    }

    /// The index as readers are to see it.
    fn visible(&self) -> (rows: Table<Location>)
        requires
            self.wf(),
        ensures
            rows.wf(),
            rows@ == visible(self.index@, self.layout().puts, self.committed_lsn),
    {
        let ghost index = self.index@;
        let ghost puts = self.layout().puts;
        let c: Lsn = self.committed_lsn;
        let n: usize = self.index.len();
        let waiting: bool = !self.caught_up();
        let older: Table<Location> = if waiting {
            self.newest()
        } else {
            Table::new()
        };
        let mut rows: Table<Location> = Table::new();
        proof {
            self.index.lemma_distinct();
            assert(index.take(0) =~= Seq::empty());
        }
        for i in 0..n
            invariant
                n == index.len(),
                index == self.index@,
                puts == self.layout().puts,
                c == self.committed_lsn,
                crate::table::distinct(index),
                older.wf(),
                rows.wf(),
                waiting ==> forall|key: Seq<char>| #[trigger]
                    lookup(older@, key) == newest(puts, key, c),
                !waiting ==> forall|j: int| 0 <= j < n ==> (#[trigger] index[j]).1.lsn <= c,
                rows@ == visible(index.take(i as int), puts, c),
        {
            let at = self.index.value_at(i);
            let key = self.index.key_at(i);
            let ghost done = index.take(i as int);
            proof {
                assert(index.take(i + 1).drop_last() =~= done);
                assert(index.take(i + 1).last() == (key@, at));
                assert(crate::table::distinct(done)) by {
                    assert forall|a: int, b: int| 0 <= a < b < done.len() implies (
                    #[trigger] done[a]).0 != (#[trigger] done[b]).0 by {
                        assert(index[a].0 != index[b].0);
                    }
                }
                lemma_visible(done, puts, c, key@);
                lemma_slot(done, key@);
                if slot(done, key@) >= 0 {
                    assert(index[slot(done, key@)].0 != index[i as int].0);
                }
                lemma_slot(rows@, key@);
                if slot(rows@, key@) >= 0 {
                    assert(slot(done, rows@[slot(rows@, key@)].0) >= 0);
                }
            }
            let shown: Option<Location> = if at.lsn <= c {
                Some(at)
            } else {
                older.get(key.as_str())
            };
            assert(shown == shown_of(puts, key@, at, c));
            if let Some(place) = shown {
                rows.insert(key.as_str(), place);
            }
        }
        assert(index.take(n as int) =~= index);
        rows
    }
}

/// `at` is the newest put of `key` at or below `upto` among `ids`, if there is
/// one.
spec fn newest_among(
    puts: Map<u64, PutModel>,
    ids: Seq<u64>,
    key: Seq<char>,
    upto: u64,
    at: Option<Location>,
) -> bool {
    match at {
        Some(a) => {
            &&& ids.contains(a.lsn)
            &&& a == location_of(puts, a.lsn)
            &&& puts[a.lsn].key == key
            &&& a.lsn <= upto
            &&& forall|j: int|
                0 <= j < ids.len() && puts[#[trigger] ids[j]].key == key && ids[j] <= upto ==> ids[j]
                    <= a.lsn
        },
        None => forall|j: int|
            0 <= j < ids.len() ==> puts[#[trigger] ids[j]].key != key || ids[j] > upto,
    }
}

proof fn lemma_newest_among_push(
    puts: Map<u64, PutModel>,
    ids: Seq<u64>,
    i: int,
    key: Seq<char>,
    upto: u64,
    at: Option<Location>,
)
    requires
        0 <= i < ids.len(),
        crate::ordered::increasing(ids),
        newest_among(puts, ids.take(i), key, upto, at),
    ensures
        newest_among(
            puts,
            ids.take(i + 1),
            key,
            upto,
            if puts[ids[i]].key == key && ids[i] <= upto {
                Some(location_of(puts, ids[i]))
            } else {
                at
            },
        ),
{
    let done = ids.take(i);
    let more = ids.take(i + 1);
    let next = if puts[ids[i]].key == key && ids[i] <= upto {
        Some(location_of(puts, ids[i]))
    } else {
        at
    };
    assert forall|j: int| 0 <= j < more.len() implies (#[trigger] more[j]) == ids[j] && (j < i
        ==> done[j] == ids[j] && ids[j] < ids[i]) by {}
    if let Some(a) = next {
        if a.lsn == ids[i] {
            assert(more[i] == a.lsn);
        } else {
            let k = choose|k: int| 0 <= k < done.len() && done[k] == a.lsn;
            assert(more[k] == a.lsn);
        }
        assert(more.contains(a.lsn));
        assert forall|j: int|
            0 <= j < more.len() && puts[#[trigger] more[j]].key == key && more[j]
                <= upto implies more[j] <= a.lsn by {
            if j < i {
                assert(done[j] == more[j]);
            }
        }
    } else {
        assert forall|j: int| 0 <= j < more.len() implies puts[#[trigger] more[j]].key != key
            || more[j] > upto by {
            if j < i {
                assert(done[j] == more[j]);
            }
        }
    }
}

proof fn lemma_newest_among_all(
    puts: Map<u64, PutModel>,
    ids: Seq<u64>,
    key: Seq<char>,
    upto: u64,
    at: Option<Location>,
)
    requires
        lists(ids, puts.dom()),
        newest_among(puts, ids, key, upto, at),
    ensures
        at == newest(puts, key, upto),
{
    match at {
        Some(a) => {
            assert(puts.dom().contains(a.lsn));
            assert forall|x: u64| #[trigger]
                puts.contains_key(x) && puts[x].key == key && x <= upto implies x <= a.lsn by {
                assert(puts.dom().contains(x));
                let j = choose|j: int| 0 <= j < ids.len() && ids[j] == x;
                assert(puts[ids[j]].key == key);
            }
            lemma_newest_is(puts, key, upto, a.lsn);
        },
        None => {
            if exists|lsn: u64| is_newest(puts, key, upto, lsn) {
                let x = choose|lsn: u64| is_newest(puts, key, upto, lsn);
                assert(puts.dom().contains(x));
                let j = choose|j: int| 0 <= j < ids.len() && ids[j] == x;
                assert(puts[ids[j]].key == key);
            }
        },
    }
}

/// The aggregates of the objects in `rows`, if they fit in 64 bits.
fn totals_of(rows: &Table<Location>) -> (totals: Option<Rollup>)
    requires
        rows.wf(),
    ensures
        match totals {
            Some(r) => r.wf() && r@ == lengths_of(rows@),
            None => crate::rollup::byte_count(lengths_of(rows@), Seq::empty()) > u64::MAX,
        },
{
    let mut totals = Rollup::default();
    let ghost live = lengths_of(rows@);
    let n: usize = rows.len();
    proof {
        rows.lemma_distinct();
        assert(live.take(0) =~= Seq::empty());
        reveal_strlit("");
        assert(""@ =~= Seq::<char>::empty());
    }
    for i in 0..n
        invariant
            n == rows@.len(),
            live == lengths_of(rows@),
            crate::table::distinct(rows@),
            ""@ == Seq::<char>::empty(),
            totals.wf(),
            totals@ == live.take(i as int),
    {
        let len: u64 = rows.value_at(i).len as u64;
        let key = rows.key_at(i);
        proof {
            lemma_byte_count_front(live, i as int);
            assert(live[i as int] == (key@, len));
            lemma_slot(totals@, key@);
            if slot(totals@, key@) >= 0 {
                let k = slot(totals@, key@);
                assert(rows@[k].0 != rows@[i as int].0);
            }
            assert(live.take(i + 1) =~= live.take(i as int).push((key@, len)));
            assert(put(totals@, key@, len) == live.take(i + 1));
        }
        if totals.get("").byte_count > u64::MAX - len {
            return None;
        }
        totals.record(key.as_str(), len);
    }
    assert(live.take(n as int) =~= live);
    Some(totals)
}

impl<F> Snap<F> {
    /// What readers are to see, if all of it can be read and its totals fit in
    /// 64 bits.
    pub(super) fn of(inner: &Inner<F>) -> (snap: Option<Snap<F>>)
        requires
            inner.wf(),
        ensures
            match snap {
                Some(s) => s.wf() && s.model() == inner.state().snapshot() && fits(s.model()),
                None => !fits(inner.state().snapshot()) || !readable(inner.state().snapshot()),
            },
    {
        let index = inner.visible();
        proof {
            inner.index.lemma_distinct();
            lemma_visible(inner.index@, inner.layout().puts, inner.committed_lsn, Seq::empty());
        }
        let n: usize = index.len();
        for i in 0..n
            invariant
                n == index@.len(),
                index.wf(),
                index@ == inner.state().snapshot().index,
                handles(inner.segments@) == inner.state().snapshot().files,
                forall|j: int|
                    0 <= j < i ==> handles(inner.segments@).contains_key(
                        (#[trigger] index@[j]).1.seg,
                    ),
        {
            let seg: u64 = index.value_at(i).seg;
            if !inner.segments.contains_key(&seg) {
                assert(!handles(inner.segments@).contains_key(index@[i as int].1.seg));
                return None;
            }
        }
        match totals_of(&index) {
            Some(rollup) => {
                let snap = Snap {
                    committed: inner.committed_lsn,
                    index,
                    files: inner.segments.clone(),
                    put_locations: inner.put_locations.clone(),
                    rollup,
                };
                proof {
                    snap.rollup.lemma_total();
                }
                Some(snap)
            },
            None => None,
        }
    }

    /// A snapshot with nothing in it.
    pub(super) fn blank() -> (snap: Snap<F>)
        ensures
            snap.wf(),
            snap.model() == blank::<F>(),
    {
        let snap = Snap {
            committed: 0,
            index: Table::new(),
            files: BTreeMap::new(),
            put_locations: BTreeMap::new(),
            rollup: Rollup::default(),
        };
        proof {
            assert(snap.model() =~= blank::<F>());
            lemma_blank(snap.model());
        }
        snap
    }

    /// Whether this snapshot may be shown after `before`.
    fn may_follow(&self, before: &Snap<F>) -> (yes: bool)
        requires
            self.wf(),
            before.wf(),
        ensures
            yes == follows(self.model(), before.model()),
    {
        if self.committed < before.committed {
            return false;
        }
        let ghost p = self.model();
        let ghost q = before.model();
        let n: usize = before.index.len();
        for i in 0..n
            invariant
                n == before.index@.len(),
                self.wf(),
                before.wf(),
                p == self.model(),
                q == before.model(),
                forall|j: int|
                    0 <= j < i ==> lookup(p.index, (#[trigger] q.index[j]).0) is Some
                        && at_least(q.index[j].1, lookup(p.index, q.index[j].0)->0),
        {
            let key = before.index.key_at(i);
            let at = before.index.value_at(i);
            let kept: bool = match self.index.get(key.as_str()) {
                Some(b) => at.lsn < b.lsn || (at.lsn == b.lsn && at.len == b.len),
                None => false,
            };
            if !kept {
                proof {
                    crate::table::lemma_slot_is(q.index, i as int);
                    assert(lookup(q.index, key@) is Some);
                }
                return false;
            }
        }
        assert(keeps_keys(p, q)) by {
            assert forall|key: Seq<char>| (#[trigger] lookup(q.index, key)) is Some implies lookup(
                p.index,
                key,
            ) is Some && at_least(lookup(q.index, key)->0, lookup(p.index, key)->0) by {
                lemma_slot(q.index, key);
                assert(q.index[slot(q.index, key)].0 == key);
            }
        }
        true
    }
}

impl<F> Store<F> {
    /// Returns a lock-free read handle over this store's committed
    /// snapshots. The handle stays valid while the store lives; readers
    /// using it never block on writes.
    pub fn read_view(&self) -> (view: StoreView<F>)
        requires
            self.wf(),
        ensures
            view.cell() == self.reader(),
            view.since() == self.shown(),
    {
        self.snap.view()
    }

    /// Shows readers the present state.
    pub(super) fn publish(&mut self)
        requires
            old(self).wf(),
        ensures
            final(self).wf(),
            final(self).state() == old(self).state(),
            final(self).shown() == shows(old(self).state().snapshot(), old(self).shown()),
            final(self).reader() == old(self).reader(),
    {
        if let Some(next) = Snap::of(&self.inner) {
            if next.may_follow(&self.published) {
                let snap = Arc::new(next);
                self.published = share(&snap);
                self.snap.store(snap);
            }
        }
    }

    /// What is committed counts as applied.
    pub proof fn lemma_commits_are_applied(&self)
        requires
            self.wf(),
        ensures
            self.state().commits_applied(),
    {
    }

    /// Readers are shown nothing that is not committed: every put that they
    /// see lies at or below what is committed.
    pub proof fn lemma_shown_is_committed(&self)
        requires
            self.wf(),
        ensures
            whole(self.shown()),
            forall|i: int|
                0 <= i < self.shown().index.len() ==> (#[trigger] self.shown().index[i]).1.lsn
                    <= self.shown().committed,
    {
    }
}

} // verus!
