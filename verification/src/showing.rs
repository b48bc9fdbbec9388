//! What readers are shown does not go back: each operation of a leader's store,
//! and each record that a follower takes, leads to a snapshot that may follow
//! the one before.

use vstd::prelude::*;

use crate::convergence::{
    as_leader_writes, clean, disk_after, in_step, lemma_apply_keeps_in_step,
    lemma_finish_keeps_in_step, temp_after, vals_after,
};
use crate::coverage::within_lengths;
use crate::durability::{next_bound, settled, waiting, was_replaced, Replacement};
use crate::error::StoreError;
use crate::history::{
    compaction_logged, healthy, in_use, lemma_commit_keeps_underway, lemma_compaction_completes,
    lemma_compaction_logged, lemma_compaction_starts, lemma_failed_put_keeps_underway,
    lemma_put_keeps_underway, lemma_sync_keeps_underway, reopened, replacement_of, underway,
};
use crate::layout::{
    committed_lengths, played, played_lengths, recovered, replaced_lengths, swaps, Layout, Location,
};
use crate::replay::agree;
use crate::replica::{op_done, Op, World};
use crate::residue::current;
use crate::segment::apply::{applies, done_as, ApplyDone};
use crate::segment::{commits, handle, stages, SegmentIo, StagedPut};
use crate::segment::compact::{dropped, kept, plans, put_in, PlanModel};
use crate::state::{Published, State};
use crate::table::{distinct, lemma_put, lemma_slot, lemma_slot_is, lookup, put, slot};
use crate::values::{
    dead, entry_of, holds_copies, lemma_entry_of, lemma_repointed, lemma_same_slots, names_puts,
    put_at, sound, written, Disk,
};
use crate::visible::{
    at_least, blank, caught_up, fits, follows, is_newest, lemma_all_visible, lemma_blank,
    lemma_follows, lemma_newest_is, lemma_visible, readable, shows,
};
use crate::wal::{committed_part, scan_of, Logged, RecordModel};

verus! {

/// Of `key`, the put at `lsn` or a newer one is committed.
pub open spec fn outlived(l: Layout, key: Seq<char>, lsn: u64) -> bool {
    exists|y: u64| #[trigger]
        l.puts.contains_key(y) && l.puts[y].key == key && lsn <= y <= l.committed_lsn
}

/// Among the puts of a key up to `upto` there is a newest one.
proof fn lemma_newest_exists(l: Layout, key: Seq<char>, upto: u64, lsn: u64) -> (best: u64)
    requires
        l.puts.contains_key(lsn),
        l.puts[lsn].key == key,
        lsn <= upto,
    ensures
        is_newest(l.puts, key, upto, best),
        lsn <= best,
    decreases upto - lsn,
{
    if is_newest(l.puts, key, upto, lsn) {
        lsn
    } else {
        let x = choose|x: u64|
            #![trigger l.puts.contains_key(x)]
            l.puts.contains_key(x) && l.puts[x].key == key && x <= upto && x > lsn;
        lemma_newest_exists(l, key, upto, x)
    }
}

/// The index says where its puts are.
pub open spec fn rows_are_puts(l: Layout) -> bool {
    &&& distinct(l.index)
    &&& forall|i: int|
        0 <= i < l.index.len() ==> l.puts.contains_key((#[trigger] l.index[i]).1.lsn)
            && l.puts[l.index[i].1.lsn] == put_at(l.index[i].0, l.index[i].1)
}

/// The files of all puts are open.
pub open spec fn all_open<F>(s: State<F>) -> bool {
    forall|lsn: u64| #[trigger]
        s.layout.puts.contains_key(lsn) ==> s.open.contains_key(s.layout.puts[lsn].seg)
}

/// What a snapshot shows of a key is a put of it.
proof fn lemma_shown_is_put<F>(s: State<F>, key: Seq<char>)
    requires
        rows_are_puts(s.layout),
    ensures
        lookup(s.snapshot().index, key) is Some ==> ({
            let at = lookup(s.snapshot().index, key)->0;
            &&& s.layout.puts.contains_key(at.lsn)
            &&& s.layout.puts[at.lsn] == put_at(key, at)
            &&& at.lsn <= s.layout.committed_lsn
            &&& lookup(s.layout.index, key) is Some
        }),
{
    let l = s.layout;
    lemma_visible(l.index, l.puts, l.committed_lsn, key);
    if lookup(s.snapshot().index, key) is Some {
        lemma_slot(l.index, key);
        let at = lookup(l.index, key)->0;
        assert(l.index[slot(l.index, key)].1 == at);
        if at.lsn > l.committed_lsn {
            let x = choose|x: u64| is_newest(l.puts, key, l.committed_lsn, x);
            assert(is_newest(l.puts, key, l.committed_lsn, x));
            lemma_newest_is(l.puts, key, l.committed_lsn, x);
        }
    }
}

/// Where the files of all puts are open, all that is shown can be read.
proof fn lemma_all_readable<F>(s: State<F>)
    requires
        rows_are_puts(s.layout),
        all_open(s),
    ensures
        readable(s.snapshot()),
{
    let p = s.snapshot();
    lemma_visible(s.layout.index, s.layout.puts, s.layout.committed_lsn, Seq::empty());
    assert forall|i: int| 0 <= i < p.index.len() implies p.files.contains_key(
        (#[trigger] p.index[i]).1.seg,
    ) by {
        lemma_slot_is(p.index, i);
        lemma_shown_is_put(s, p.index[i].0);
    }
}

/// Where no put is lost but for a newer one, and what is committed does not
/// become less, a snapshot that can be read may follow.
proof fn lemma_snapshot_follows<F>(s: State<F>, t: State<F>)
    requires
        rows_are_puts(s.layout),
        rows_are_puts(t.layout),
        current(t.layout),
        s.layout.committed_lsn <= t.layout.committed_lsn,
        forall|lsn: u64| #[trigger]
            s.layout.puts.contains_key(lsn) && lsn <= s.layout.committed_lsn ==> outlived(
                t.layout,
                s.layout.puts[lsn].key,
                lsn,
            ),
        forall|lsn: u64| #[trigger]
            s.layout.puts.contains_key(lsn) && t.layout.puts.contains_key(lsn)
                ==> s.layout.puts[lsn].len == t.layout.puts[lsn].len,
    ensures
        readable(t.snapshot()) ==> follows(t.snapshot(), s.snapshot()),
{
    let a = s.layout;
    let b = t.layout;
    lemma_visible(b.index, b.puts, b.committed_lsn, Seq::empty());
    assert forall|key: Seq<char>| (#[trigger] lookup(s.snapshot().index, key)) is Some implies {
        &&& lookup(t.snapshot().index, key) is Some
        &&& at_least(lookup(s.snapshot().index, key)->0, lookup(t.snapshot().index, key)->0)
    } by {
        lemma_visible(b.index, b.puts, b.committed_lsn, key);
        lemma_shown_is_put(s, key);
        lemma_shown_is_put(t, key);
        let shown = lookup(s.snapshot().index, key)->0.lsn;
        assert(a.puts.contains_key(shown));
        let y = choose|y: u64| #[trigger]
            b.puts.contains_key(y) && b.puts[y].key == key && shown <= y <= b.committed_lsn;
        assert(b.puts.contains_key(y));
        if lookup(b.index, key)->0.lsn > b.committed_lsn {
            let best = lemma_newest_exists(b, key, b.committed_lsn, y);
            lemma_newest_is(b.puts, key, b.committed_lsn, best);
        }
    }
}

/// A leader's store at work. `disk`, `vals`, `o`, `gone` and `bytes` are as in
/// [`underway`]; `mark` is the last LSN before the replacement `o` was logged;
/// `shown` is what readers are shown.
#[verifier::reject_recursive_types(F)]
pub ghost struct Service<F> {
    pub s: State<F>,
    pub disk: Disk,
    pub vals: Map<u64, Seq<u8>>,
    pub o: Option<Replacement>,
    pub gone: Set<u64>,
    pub bytes: Seq<u8>,
    pub mark: u64,
    pub shown: Published<F>,
}

/// What a leader does with its store: calls of `Store::stage_put`,
/// `Store::sync_wal`, `Store::commit`, `Store::compact_plan` with
/// `Store::compact_stage`, and `Store::compact_commit`.
#[verifier::reject_recursive_types(F)]
pub ghost enum Step<F> {
    Put {
        key: Seq<char>,
        value: Seq<u8>,
        io: SegmentIo<F>,
        staged: Result<StagedPut, StoreError>,
    },
    /// A put fails once `stray` was written.
    FailedPut {
        key: Seq<char>,
        value: Seq<u8>,
        io: SegmentIo<F>,
        staged: Result<StagedPut, StoreError>,
        stray: Seq<u8>,
    },
    SyncLog,
    /// A commit that succeeds, or that fails before anything is logged.
    Commit {
        upto: u64,
        segments: Result<(), StoreError>,
        wal: Result<(), StoreError>,
        res: Result<(), StoreError>,
    },
    /// A compaction is logged. `bytes` is its new segment.
    StartCompaction { horizon: u64, plan: PlanModel<F>, bytes: Seq<u8> },
    /// A compaction that is committed is completed.
    FinishCompaction { file: F },
}

/// `w` becomes `w2` by `step`. Commits and completed compactions publish. A
/// commit for which nothing waits has nothing to do.
pub open spec fn step_done<F>(w: Service<F>, step: Step<F>, w2: Service<F>) -> bool {
    match step {
        Step::Put { key, value, io, staged } => {
            &&& op_done(
                World { s: w.s, disk: w.disk, vals: w.vals, shown: w.shown },
                Op::Put { key, value, io, staged },
                World { s: w2.s, disk: w2.disk, vals: w2.vals, shown: w2.shown },
            )
            &&& w2 == (Service { s: w2.s, disk: w2.disk, vals: w2.vals, ..w })
        },
        Step::FailedPut { key, value, io, staged, stray } => {
            let ready = w.s.before_put(value.len()).with_active(handle(io.opened));
            &&& w.s.has_room(value.len())
            &&& stages(w.s, key, value, io, w2.s, staged)
            &&& staged is Err
            &&& w2 == (Service {
                s: w2.s,
                disk: if value.len() <= u32::MAX && ready.active_open() {
                    written(w.disk, ready.layout.active_id, ready.layout.active_offset, stray)
                } else {
                    w.disk
                },
                ..w
            })
        },
        Step::SyncLog => w2 == (Service { s: w.s.wal_synced(), ..w }),
        Step::Commit { upto, segments, wal, res } => {
            &&& w.s.wal.next_lsn < u64::MAX
            &&& commits(w.s, w.shown, upto, segments, wal, w2.s, w2.shown, res)
            &&& res is Ok || segments is Err
            &&& w2 == (Service { s: w2.s, shown: w2.shown, ..w })
        },
        Step::StartCompaction { horizon, plan, bytes } => {
            &&& w.o is None
            &&& plans(w.s, horizon, plan)
            &&& holds_copies(w.disk, plan, w.s.layout, bytes)
            &&& w.s.next_free_id < u64::MAX
            &&& 0 < w.s.wal.next_lsn
            &&& w.s.wal.next_lsn + plan.entries.len() + 1 <= u64::MAX
            &&& w2 == (Service {
                s: compaction_logged(w.s, plan),
                o: Some(replacement_of(plan)),
                gone: plan.dropped.to_set(),
                bytes,
                mark: (w.s.wal.next_lsn - 1) as u64,
                ..w
            })
        },
        Step::FinishCompaction { file } => {
            &&& w.o is Some
            &&& w.mark <= w.s.layout.committed_lsn || !w.s.pending
            &&& {
                let m = w.o->0;
                let t = w.s.compacted(m.old, m.new, file, m.entries, w.gone);
                w2 == (Service {
                    s: t,
                    disk: w.disk.insert(m.new, w.bytes).remove(m.old),
                    o: None,
                    shown: shows(t.snapshot(), w.shown),
                    ..w
                })
            }
        },
    }
}

/// What is left behind was overwritten before the replacement was logged.
pub open spec fn overtaken(l: Layout, gone: Set<u64>, mark: u64) -> bool {
    forall|x: u64| #[trigger]
        gone.contains(x) ==> exists|y: u64| #[trigger]
            l.puts.contains_key(y) && l.puts[y].key == l.puts[x].key && x < y <= mark
                && !gone.contains(y)
}

/// What is not left behind is moved.
pub open spec fn all_moved(l: Layout, m: Replacement, gone: Set<u64>) -> bool {
    forall|x: u64| #[trigger]
        put_in(l, m.old, x) ==> entry_of(m.entries, x) is Some || gone.contains(x)
}

/// The store is in order, and what readers are shown is not ahead of it.
pub open spec fn serving<F>(w: Service<F>) -> bool {
    &&& underway(w.s, w.o, w.gone, w.bytes, w.disk, w.vals)
    &&& current(w.s.layout)
    &&& follows(w.s.snapshot(), w.shown)
    &&& !w.s.pending ==> caught_up(w.s.layout)
    &&& all_open(w.s)
    &&& w.o is Some ==> overtaken(w.s.layout, w.gone, w.mark) && all_moved(
        w.s.layout,
        w.o->0,
        w.gone,
    )
}

pub(crate) proof fn lemma_put_serves<F>(w: Service<F>, step: Step<F>, w2: Service<F>)
    requires
        serving(w),
        step is Put,
        step_done(w, step, w2),
    ensures
        serving(w2),
        w2.s.layout.committed_lsn == w.s.layout.committed_lsn,
        ({
            let lsn = w.s.before_put(step->Put_value.len()).wal.next_lsn;
            &&& w2.vals == w.vals.insert(lsn, step->Put_value)
            &&& !w.s.layout.puts.contains_key(lsn)
            &&& lookup(w2.s.layout.index, step->Put_key) matches Some(at) && at.lsn == lsn
            &&& forall|k: Seq<char>| k != step->Put_key ==> #[trigger] lookup(
                w2.s.layout.index,
                k,
            ) == lookup(w.s.layout.index, k)
        }),
{
    let (key, value, opened) = (step->Put_key, step->Put_value, handle(step->Put_io.opened));
    let len = value.len() as u32;
    lemma_put_keeps_underway(w.s, w.o, w.gone, w.bytes, w.disk, w.vals, opened, key, value);
    let ready = w.s.before_put(value.len()).with_active(opened);
    let lsn = ready.wal.next_lsn;
    let a = w.s.layout;
    let b = w2.s.layout;
    let at = Location {
        seg: ready.layout.active_id,
        offset: ready.layout.active_offset,
        len,
        lsn,
    };
    assert(ready.layout.index == a.index && ready.layout.puts == a.puts);
    assert(b.index == put(a.index, key, at));
    assert(lsn >= w.s.wal.next_lsn);
    assert(!a.puts.contains_key(lsn));
    assert(b.puts == a.puts.insert(lsn, b.puts[lsn]) && b.puts[lsn].key == key);
    lemma_put(a.index, key, at, key);
    assert forall|k: Seq<char>| k != key implies #[trigger] lookup(b.index, k) == lookup(
        a.index,
        k,
    ) by {
        lemma_put(a.index, key, at, k);
    }
    assert forall|x: u64| #[trigger] b.puts.contains_key(x) implies lookup(
        b.index,
        b.puts[x].key,
    ) is Some && x <= lookup(b.index, b.puts[x].key)->0.lsn by {
        if x != lsn {
            assert(a.puts.contains_key(x));
            assert(x < w.s.wal.next_lsn);
        }
    }
    assert forall|x: u64| #[trigger]
        a.puts.contains_key(x) && x <= a.committed_lsn implies outlived(b, a.puts[x].key, x) by {
        assert(b.puts.contains_key(x));
    }
    assert(all_open(w2.s)) by {
        assert forall|x: u64| #[trigger] b.puts.contains_key(x) implies w2.s.open.contains_key(
            b.puts[x].seg,
        ) by {
            if x != lsn {
                assert(a.puts.contains_key(x));
            }
        }
    }
    lemma_all_readable(w2.s);
    lemma_snapshot_follows(w.s, w2.s);
    lemma_follows(w2.s.snapshot(), w.s.snapshot(), w.shown);
    if w.o is Some {
        lemma_still_overtaken(a, b, w.o->0, w.gone, w.mark);
        assert forall|x: u64| #[trigger] put_in(b, w.o->0.old, x) implies entry_of(
            w.o->0.entries,
            x,
        ) is Some || w.gone.contains(x) by {
            assert(put_in(a, w.o->0.old, x));
        }
    }
}

proof fn lemma_still_overtaken(a: Layout, b: Layout, m: Replacement, gone: Set<u64>, mark: u64)
    requires
        overtaken(a, gone, mark),
        forall|x: u64| #[trigger] gone.contains(x) ==> put_in(a, m.old, x),
        forall|x: u64| #[trigger]
            a.puts.contains_key(x) ==> b.puts.contains_key(x) && b.puts[x].key == a.puts[x].key,
    ensures
        overtaken(b, gone, mark),
{
    assert forall|x: u64| #[trigger] gone.contains(x) implies exists|y: u64| #[trigger]
        b.puts.contains_key(y) && b.puts[y].key == b.puts[x].key && x < y <= mark
            && !gone.contains(y) by {
        assert(put_in(a, m.old, x));
        let y = choose|y: u64| #[trigger]
            a.puts.contains_key(y) && a.puts[y].key == a.puts[x].key && x < y <= mark
                && !gone.contains(y);
        assert(a.puts.contains_key(y));
        assert(b.puts.contains_key(y));
    }
}

/// A step that leaves the index and the puts alone, and takes no commit back.
proof fn lemma_same_rows_serve<F>(w: Service<F>, w2: Service<F>)
    requires
        serving(w),
        underway(w2.s, w2.o, w2.gone, w2.bytes, w2.disk, w2.vals),
        w2.s.layout.index == w.s.layout.index,
        w2.s.layout.puts == w.s.layout.puts,
        w.s.layout.committed_lsn <= w2.s.layout.committed_lsn,
        !w2.s.pending ==> caught_up(w2.s.layout),
        w2.shown == w.shown || w2.shown == shows(w2.s.snapshot(), w.shown),
        forall|id: u64| #[trigger] w.s.open.contains_key(id) ==> w2.s.open.contains_key(id),
        w2.o is Some ==> overtaken(w.s.layout, w2.gone, w2.mark) && all_moved(
            w.s.layout,
            w2.o->0,
            w2.gone,
        ),
    ensures
        serving(w2),
        w2.shown == shows(w2.s.snapshot(), w.shown) && fits(w2.s.snapshot()) ==> w2.shown
            == w2.s.snapshot(),
{
    let a = w.s.layout;
    let b = w2.s.layout;
    assert forall|x: u64| #[trigger]
        a.puts.contains_key(x) && x <= a.committed_lsn implies outlived(b, a.puts[x].key, x) by {
        assert(b.puts.contains_key(x));
    }
    assert(current(b)) by {
        assert forall|x: u64| #[trigger] b.puts.contains_key(x) implies lookup(
            b.index,
            b.puts[x].key,
        ) is Some && x <= lookup(b.index, b.puts[x].key)->0.lsn by {
            assert(a.puts.contains_key(x));
        }
    }
    if w2.o is Some {
        let m = w2.o->0;
        lemma_still_overtaken(a, b, m, w2.gone, w2.mark);
        assert forall|x: u64| #[trigger] put_in(b, m.old, x) implies entry_of(
            m.entries,
            x,
        ) is Some || w2.gone.contains(x) by {
            assert(put_in(a, m.old, x));
        }
    }
    lemma_all_readable(w2.s);
    lemma_snapshot_follows(w.s, w2.s);
    lemma_follows(w2.s.snapshot(), w.s.snapshot(), w.shown);
    lemma_follows(w2.s.snapshot(), w2.s.snapshot(), w.shown);
}

pub(crate) proof fn lemma_start_serves<F>(w: Service<F>, step: Step<F>, w2: Service<F>)
    requires
        serving(w),
        step is StartCompaction,
        step_done(w, step, w2),
    ensures
        serving(w2),
        w2.s.layout == w.s.layout,
{
    let (horizon, plan) = (step->StartCompaction_horizon, step->plan);
    let l = w.s.layout;
    lemma_compaction_logged(w.s, plan);
    lemma_compaction_starts(w.s, w.disk, w.vals, horizon, plan, step->StartCompaction_bytes);
    let gone = w2.gone;
    assert forall|x: u64| #[trigger] gone.contains(x) implies exists|y: u64| #[trigger]
        l.puts.contains_key(y) && l.puts[y].key == l.puts[x].key && x < y <= w2.mark
            && !gone.contains(y) by {
        assert(dead(l, x) && put_in(l, plan.old, x));
        let key = l.puts[x].key;
        assert(l.puts.contains_key(x));
        let y = lookup(l.index, key)->0.lsn;
        lemma_slot(l.index, key);
        let i = slot(l.index, key);
        assert(l.index[i].1.lsn == y);
        assert(l.puts.contains_key(y));
        if gone.contains(y) {
            assert(dead(l, y));
        }
    }
    assert forall|x: u64| #[trigger] put_in(l, plan.old, x) implies entry_of(
        plan.entries,
        x,
    ) is Some || gone.contains(x) by {
        if kept(l, plan.old, horizon, x) {
            assert(plan.places.contains((l.puts[x].offset, x)));
            let j = choose|j: int|
                0 <= j < plan.places.len() && plan.places[j] == (l.puts[x].offset, x);
            lemma_entry_of(plan.entries, x);
            assert(plan.entries[j].lsn == x);
        } else {
            assert(dropped(l, plan.old, horizon, x));
            assert(plan.dropped.contains(x));
        }
    }
    lemma_same_rows_serve(w, w2);
}

#[verifier::rlimit(40)]
pub(crate) proof fn lemma_finish_serves<F>(w: Service<F>, step: Step<F>, w2: Service<F>)
    requires
        serving(w),
        step is FinishCompaction,
        step_done(w, step, w2),
    ensures
        serving(w2),
        fits(w2.s.snapshot()) ==> w2.shown == w2.s.snapshot(),
        w2.s.layout.committed_lsn == w.s.layout.committed_lsn,
        forall|key: Seq<char>| (#[trigger] lookup(w2.s.layout.index, key)) is Some <==> lookup(
            w.s.layout.index,
            key,
        ) is Some,
        forall|key: Seq<char>| #[trigger]
            lookup(w2.s.layout.index, key) matches Some(at) ==> at.lsn == lookup(
                w.s.layout.index,
                key,
            )->0.lsn,
{
    let m = w.o->0;
    let a = w.s.layout;
    let b = w2.s.layout;
    lemma_compaction_completes(w.s, m, w.gone, w.bytes, w.disk, w.vals, step->file);
    lemma_repointed(a, m.old, m.new, m.entries);
    let moved = a.repoint_all(m.entries, m.new);
    assert(b.index == moved.index);
    assert forall|i: int| 0 <= i < a.index.len() implies (#[trigger] b.index[i]).0 == a.index[i].0
        && b.index[i].1.lsn == a.index[i].1.lsn by {
        lemma_entry_of(m.entries, a.index[i].1.lsn);
    }
    assert forall|x: u64| #[trigger] b.puts.contains_key(x) implies a.puts.contains_key(x)
        && b.puts[x].key == a.puts[x].key && b.puts[x].len == a.puts[x].len && !w.gone.contains(x)
        && w2.s.open.contains_key(b.puts[x].seg) by {
        assert(moved.puts.dom().contains(x));
        assert(a.puts.contains_key(x));
        lemma_entry_of(m.entries, x);
        if let Some(e) = entry_of(m.entries, x) {
            let j = choose|j: int| 0 <= j < m.entries.len() && #[trigger] m.entries[j] == e;
            assert(put_in(a, m.old, m.entries[j].lsn));
        } else {
            assert(!put_in(a, m.old, x));
        }
    }
    lemma_all_readable(w2.s);
    assert forall|x: u64| a.puts.contains_key(x) && !w.gone.contains(x) implies
        #[trigger] b.puts.contains_key(x) by {
        assert(moved.puts.dom().contains(x));
    }
    assert forall|key: Seq<char>| slot(a.index, key) == #[trigger] slot(b.index, key) by {
        lemma_same_slots(a.index, b.index, key);
    }
    assert forall|key: Seq<char>| (#[trigger] lookup(b.index, key)) is Some implies lookup(
        b.index,
        key,
    )->0.lsn == lookup(a.index, key)->0.lsn by {
        lemma_slot(b.index, key);
        assert(b.index[slot(b.index, key)].1.lsn == a.index[slot(b.index, key)].1.lsn);
    }
    assert(current(b)) by {
        assert forall|x: u64| #[trigger] b.puts.contains_key(x) implies lookup(
            b.index,
            b.puts[x].key,
        ) is Some && x <= lookup(b.index, b.puts[x].key)->0.lsn by {
            assert(a.puts.contains_key(x));
        }
    }
    assert forall|x: u64| #[trigger]
        a.puts.contains_key(x) && x <= a.committed_lsn implies outlived(b, a.puts[x].key, x) by {
        if w.gone.contains(x) {
            let y = choose|y: u64| #[trigger]
                a.puts.contains_key(y) && a.puts[y].key == a.puts[x].key && x < y <= w.mark
                    && !w.gone.contains(y);
            assert(a.puts.contains_key(y));
            assert(b.puts.contains_key(y));
            if !w.s.pending {
                lemma_slot(a.index, a.puts[y].key);
                let i = slot(a.index, a.puts[y].key);
                assert(a.index[i].1.lsn <= a.committed_lsn);
            }
        } else {
            assert(b.puts.contains_key(x));
        }
    }
    lemma_snapshot_follows(w.s, w2.s);
    lemma_follows(w2.s.snapshot(), w.s.snapshot(), w.shown);
    lemma_follows(w2.s.snapshot(), w2.s.snapshot(), w.shown);
}

/// Readers never go back: every step of a leader's store leads to a snapshot
/// that may be shown after what readers see. So a commit, and a compaction
/// that is completed, shows the store as it then is, as long as the totals fit
/// in 64 bits.
pub proof fn lemma_steps_are_shown<F>(w: Service<F>, step: Step<F>, w2: Service<F>)
    requires
        serving(w),
        step_done(w, step, w2),
    ensures
        serving(w2),
        w.s.layout.committed_lsn <= w2.s.layout.committed_lsn,
        (step is Commit && step->Commit_res is Ok && w.s.pending || step is FinishCompaction)
            && fits(w2.s.snapshot()) ==> w2.shown == w2.s.snapshot(),
        !(step is Commit && step->Commit_res is Ok && w.s.pending || step is FinishCompaction)
            ==> w2.shown == w.shown,
{
    match step {
        Step::Put { .. } => lemma_put_serves(w, step, w2),
        Step::FailedPut { value, io, stray, .. } => if value.len() <= u32::MAX {
            lemma_failed_put_keeps_underway(
                w.s,
                w.o,
                w.gone,
                w.bytes,
                w.disk,
                w.vals,
                handle(io.opened),
                value.len(),
                stray,
            );
            lemma_same_rows_serve(w, w2);
        },
        Step::SyncLog => {
            lemma_sync_keeps_underway(w.s, w.o, w.gone, w.bytes, w.disk, w.vals);
            lemma_same_rows_serve(w, w2);
        },
        Step::Commit { upto, segments, .. } => if w.s.pending && segments is Ok {
            lemma_commit_keeps_underway(w.s, w.o, w.gone, w.bytes, w.disk, w.vals, upto);
            lemma_same_rows_serve(w, w2);
        },
        Step::StartCompaction { .. } => lemma_start_serves(w, step, w2),
        Step::FinishCompaction { .. } => lemma_finish_serves(w, step, w2),
    }
}

/// A store at work, without a compaction under way.
pub open spec fn at_work<F>(
    s: State<F>,
    shown: Published<F>,
    disk: Disk,
    vals: Map<u64, Seq<u8>>,
) -> Service<F> {
    Service {
        s,
        disk,
        vals,
        o: None,
        gone: Set::empty(),
        bytes: Seq::empty(),
        mark: 0,
        shown,
    }
}

/// A store that was just opened, at work.
pub open spec fn opened_service<F>(s: State<F>, disk: Disk, vals: Map<u64, Seq<u8>>) -> Service<F> {
    at_work(s, shows(s.snapshot(), blank()), disk, vals)
}

/// The length of a segment that was replaced is known: it is empty.
proof fn lemma_replaced_has_length(
    lens: Map<u64, u64>,
    log: Seq<Logged>,
    pairs: Seq<(u64, u64)>,
    i: int,
)
    requires
        0 <= i < pairs.len(),
    ensures
        replaced_lengths(lens, log, pairs).contains_key(pairs[i].0),
    decreases pairs.len(),
{
    if i < pairs.len() - 1 {
        lemma_replaced_has_length(lens, log, pairs.drop_last(), i);
    }
}

/// A store that was recovered has the files of all its puts open.
pub proof fn lemma_reopened_is_open<F>(t: State<F>, file: Seq<u8>, floor: u64)
    requires
        reopened(t, file, floor),
        within_lengths(t, None),
    ensures
        all_open(t),
        t.pending == !caught_up(t.layout),
{
    let log = t.wal.log();
    assert(log =~= committed_part(scan_of(file)));
    let l = played(log);
    let lens = played_lengths(log);
    let all = if lens.contains_key(l.active_id) {
        lens
    } else {
        lens.insert(l.active_id, l.active_offset)
    };
    assert forall|x: u64| #[trigger] t.layout.puts.contains_key(x) implies t.open.contains_key(
        t.layout.puts[x].seg,
    ) by {
        let seg = t.layout.puts[x].seg;
        if was_replaced(log, seg) {
            let i = choose|i: int| 0 <= i < swaps(log).len() && (#[trigger] swaps(log)[i]).0 == seg;
            lemma_replaced_has_length(all, log, swaps(log), i);
        }
        assert(committed_lengths(log).contains_key(seg));
    }
}

/// A store in order that is opened, be it new or recovered, shows what is
/// committed in it. For stores in order see
/// [`lemma_new_store_is_healthy`](crate::history::lemma_new_store_is_healthy) and
/// [`lemma_reopened_is_healthy`](crate::history::lemma_reopened_is_healthy); for
/// the files of a recovered one, [`lemma_reopened_is_open`].
pub proof fn lemma_opened_store_serves<F>(s: State<F>, disk: Disk, vals: Map<u64, Seq<u8>>)
    requires
        healthy(s, disk, vals),
        all_open(s),
        !s.pending ==> caught_up(s.layout),
    ensures
        serving(opened_service(s, disk, vals)),
        fits(s.snapshot()) ==> opened_service(s, disk, vals).shown == s.snapshot(),
{
    let l = s.layout;
    let r = recovered(s.wal.log());
    assert(agree(r, l));
    assert(current(l)) by {
        assert forall|x: u64| #[trigger] l.puts.contains_key(x) implies lookup(
            l.index,
            l.puts[x].key,
        ) is Some && x <= lookup(l.index, l.puts[x].key)->0.lsn by {
            assert(r.puts.contains_key(x));
        }
    }
    lemma_visible(l.index, l.puts, l.committed_lsn, Seq::empty());
    lemma_all_readable(s);
    lemma_blank(s.snapshot());
    lemma_follows(s.snapshot(), s.snapshot(), s.snapshot());
}

/// The index of a follower in order names the newest put of every key.
proof fn lemma_in_step_is_current<F>(
    s: State<F>,
    n: u64,
    disk: Disk,
    temp: Seq<u8>,
    vals: Map<u64, Seq<u8>>,
)
    requires
        in_step(s, n, disk, temp, vals),
    ensures
        current(s.layout),
{
    let l = s.layout;
    let o = waiting(s.swap);
    let r = recovered(s.wal.log());
    let t = settled(l, o);
    assert(agree(r, t));
    if let Some(m) = o {
        lemma_repointed(l, m.old, m.new, m.entries);
        assert forall|x: u64| #[trigger] l.puts.contains_key(x) implies t.puts.contains_key(x)
            && t.puts[x].key == l.puts[x].key by {
            assert(l.puts.dom().contains(x));
            assert(t.puts.dom().contains(x));
            lemma_moved_key(l, m, x);
        }
        assert forall|i: int| 0 <= i < l.index.len() implies (#[trigger] t.index[i]).0
            == l.index[i].0 && t.index[i].1.lsn == l.index[i].1.lsn by {
            lemma_entry_of(m.entries, l.index[i].1.lsn);
        }
    }
    assert forall|x: u64| #[trigger] l.puts.contains_key(x) implies lookup(
        l.index,
        l.puts[x].key,
    ) is Some && x <= lookup(l.index, l.puts[x].key)->0.lsn by {
        let key = l.puts[x].key;
        assert(t.puts.contains_key(x));
        assert(r.puts.contains_key(x));
        lemma_same_slots(l.index, t.index, key);
        lemma_slot(l.index, key);
        assert(t.index[slot(l.index, key)].1.lsn == l.index[slot(l.index, key)].1.lsn);
    }
}

/// Where everything is committed, all that is shown is on disk, so that it can
/// be read.
pub(crate) proof fn lemma_committed_is_readable<F>(s: State<F>, disk: Disk, vals: Map<u64, Seq<u8>>)
    requires
        sound(disk, s.layout, vals),
        in_use(s, disk),
        caught_up(s.layout),
    ensures
        readable(s.snapshot()),
{
    let l = s.layout;
    lemma_all_visible(l.index, l.puts, l.committed_lsn);
    assert forall|i: int| 0 <= i < l.index.len() implies s.open.contains_key(
        (#[trigger] l.index[i]).1.seg,
    ) by {
        assert(disk.contains_key(l.index[i].1.seg));
    }
}

/// Moving a value keeps its key and its length.
proof fn lemma_moved_key(l: Layout, m: Replacement, x: u64)
    requires
        distinct(l.index),
        forall|i: int|
            0 <= i < l.index.len() ==> l.puts.contains_key((#[trigger] l.index[i]).1.lsn)
                && l.puts[l.index[i].1.lsn].key == l.index[i].0,
        names_puts(l, m.old, m.entries),
        l.puts.contains_key(x),
    ensures
        l.repoint_all(m.entries, m.new).puts[x].key == l.puts[x].key,
        l.repoint_all(m.entries, m.new).puts[x].len == l.puts[x].len,
{
    lemma_repointed(l, m.old, m.new, m.entries);
    lemma_entry_of(m.entries, x);
    if let Some(e) = entry_of(m.entries, x) {
        let j = choose|j: int| 0 <= j < m.entries.len() && #[trigger] m.entries[j] == e;
        assert(put_in(l, m.old, m.entries[j].lsn));
    }
}

/// Readers of a follower never go back either: every record that it takes
/// leads to a snapshot that may follow the one before.
pub proof fn lemma_applied_may_be_shown<F>(
    before: State<F>,
    n: u64,
    disk: Disk,
    temp: Seq<u8>,
    vals: Map<u64, Seq<u8>>,
    lsn: u64,
    rec: RecordModel,
    data: Option<Seq<u8>>,
    io: ApplyDone<F>,
    after: State<F>,
    res: Result<(), StoreError>,
    temp2: Seq<u8>,
)
    requires
        in_step(before, n, disk, temp, vals),
        before.wal.next_lsn <= lsn,
        before.can_apply(lsn, rec),
        as_leader_writes(before, n, rec),
        done_as(before.io_kind(rec, data), io),
        applies(before, lsn, rec, data, io, after, res),
        res is Ok,
        temp_after(before, disk, rec, temp, temp2),
    ensures
        readable(after.snapshot()) ==> follows(after.snapshot(), before.snapshot()),
        readable(after.snapshot()) ==> follows(after.all_synced().snapshot(), before.snapshot()),
        caught_up(after.layout) ==> readable(after.snapshot()),
{
    lemma_apply_keeps_in_step(
        before,
        n,
        disk,
        temp,
        vals,
        lsn,
        rec,
        data,
        io,
        after,
        res,
        temp2,
    );
    lemma_in_step_is_current(
        after,
        next_bound(rec, n),
        disk_after(disk, before.layout, rec, data),
        temp2,
        vals_after(vals, lsn, rec, data),
    );
    let a = before.layout;
    let b = after.layout;
    assert forall|x: u64| #[trigger] a.puts.contains_key(x) implies b.puts.contains_key(x)
        && b.puts[x] == a.puts[x] by {
        assert(x < before.wal.next_lsn);
    }
    assert forall|x: u64| #[trigger]
        a.puts.contains_key(x) && x <= a.committed_lsn implies outlived(b, a.puts[x].key, x) by {
        assert(b.puts.contains_key(x));
    }
    lemma_snapshot_follows(before, after);
    if caught_up(b) {
        lemma_committed_is_readable(
            after,
            disk_after(disk, before.layout, rec, data),
            vals_after(vals, lsn, rec, data),
        );
    }
}

/// Nor do they go back when a follower completes a replacement.
pub proof fn lemma_finished_may_be_shown<F>(
    s: State<F>,
    n: u64,
    disk: Disk,
    temp: Seq<u8>,
    vals: Map<u64, Seq<u8>>,
    file: F,
)
    requires
        in_step(s, n, disk, temp, vals),
        s.swap is Some,
        clean(s.wal.log()),
    ensures
        readable(s.swap_finished(file).snapshot()) ==> follows(
            s.swap_finished(file).snapshot(),
            s.snapshot(),
        ),
        caught_up(s.layout) ==> readable(s.swap_finished(file).snapshot()),
{
    let w = s.swap->0;
    let m = Replacement { old: w.old, new: w.new, entries: w.entries };
    let t = s.swap_finished(file);
    lemma_finish_keeps_in_step(s, n, disk, temp, vals, file);
    lemma_in_step_is_current(
        t,
        n,
        disk.insert(w.new, temp).remove(w.old),
        temp,
        vals,
    );
    lemma_repointed(s.layout, w.old, w.new, w.entries);
    let a = s.layout;
    let b = t.layout;
    assert forall|x: u64| #[trigger]
        a.puts.contains_key(x) && x <= a.committed_lsn implies outlived(b, a.puts[x].key, x) by {
        assert(a.puts.dom().contains(x));
        assert(b.puts.dom().contains(x));
        lemma_moved_key(a, m, x);
        assert(b.puts.contains_key(x));
    }
    assert forall|x: u64| #[trigger]
        a.puts.contains_key(x) && b.puts.contains_key(x) implies a.puts[x].len == b.puts[x].len by {
        lemma_moved_key(a, m, x);
    }
    lemma_snapshot_follows(s, t);
    if caught_up(a) {
        assert forall|i: int| 0 <= i < b.index.len() implies (#[trigger] b.index[i]).1.lsn
            <= b.committed_lsn by {
            lemma_entry_of(m.entries, a.index[i].1.lsn);
            assert(a.index[i].1.lsn <= a.committed_lsn);
        }
        lemma_committed_is_readable(t, disk.insert(w.new, temp).remove(w.old), vals);
    }
}

} // verus!
