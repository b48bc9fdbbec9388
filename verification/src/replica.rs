//! A follower that is sent all that a leader logs, puts and commits, ends up
//! as a copy of the leader.

use vstd::prelude::*;

use crate::convergence::{
    disk_after, in_step, lemma_apply_keeps_in_step, lemma_healthy_is_in_step,
    vals_after,
};
use crate::durability::{
    lemma_appended_log, lemma_new_store_faithful, lemma_same_log_same_layout, next_bound,
    was_replaced,
};
use crate::error::StoreError;
use crate::guarantees::got;
use crate::history::{
    healthy, lemma_commit_keeps_healthy, lemma_new_store_is_healthy, lemma_put_keeps_healthy,
};
use crate::layout::{played, recovered, swaps};
use crate::replay::agree;
use crate::segment::apply::{applies, done_as, ApplyDone};
use crate::segment::{commits, handle, stages, syncs, SegmentIo, StagedPut};
use crate::showing::{
    at_work, lemma_committed_is_readable, lemma_opened_store_serves, lemma_steps_are_shown,
    opened_service, serving, step_done, Service, Step,
};
use crate::segment::open::opened_state;
use crate::state::{agg_record, put_record, Published, State};
use crate::table::{lemma_slot, lookup, slot};
use crate::values::{written, Disk};
use crate::visible::{
    blank, caught_up, fits, follows, is_newest, lemma_all_visible, lemma_visible, shows,
};
use crate::wal::{encodable, Logged, RecordModel};

verus! {

/// What a leader does, and what comes of it.
#[verifier::reject_recursive_types(F)]
pub ghost enum Op<F> {
    /// It stages a put of `value` under `key`. `io` tells of the active
    /// segment's file.
    Put {
        key: Seq<char>,
        value: Seq<u8>,
        io: SegmentIo<F>,
        staged: Result<StagedPut, StoreError>,
    },
    /// It commits everything up to `upto`.
    Commit {
        upto: u64,
        segments: Result<(), StoreError>,
        wal: Result<(), StoreError>,
        res: Result<(), StoreError>,
    },
}

/// A store with its segment files, the values that were put, by LSN, and what
/// readers are shown.
#[verifier::reject_recursive_types(F)]
pub ghost struct World<F> {
    pub s: State<F>,
    pub disk: Disk,
    pub vals: Map<u64, Seq<u8>>,
    pub shown: Published<F>,
}

/// A store that was just created. `file` is that of its first segment.
pub open spec fn created<F>(max: u64, floor: u64, next_id: u64, file: F) -> World<F> {
    let s = State {
        next_free_id: next_id,
        open: Map::empty().insert(0u64, file),
        ..opened_state::<F>(Seq::empty(), max, floor)
    };
    World {
        s,
        disk: Map::empty().insert(0u64, Seq::empty()),
        vals: Map::empty(),
        shown: shows(s.snapshot(), blank()),
    }
}

/// The leader `w` becomes `w2` by `op`, which succeeds: `Store::stage_put` or
/// `Store::commit`, with the value written where it belongs.
pub open spec fn op_done<F>(w: World<F>, op: Op<F>, w2: World<F>) -> bool {
    match op {
        Op::Put { key, value, io, staged } => {
            let ready = w.s.before_put(value.len()).with_active(handle(io.opened));
            &&& w.s.has_room(value.len())
            &&& stages(w.s, key, value, io, w2.s, staged)
            &&& staged is Ok
            &&& w2.disk == written(
                w.disk,
                ready.layout.active_id,
                ready.layout.active_offset,
                value,
            )
            &&& w2.vals == w.vals.insert(ready.wal.next_lsn, value)
            &&& w2.shown == w.shown
        },
        Op::Commit { upto, segments, wal, res } => {
            &&& w.s.wal.next_lsn < u64::MAX
            &&& commits(w.s, w.shown, upto, segments, wal, w2.s, w2.shown, res)
            &&& res is Ok
            &&& w2.disk == w.disk
            &&& w2.vals == w.vals
        },
    }
}

/// `ws` are the states of a leader that starts as `start` and does `ops`.
pub open spec fn leads<F>(start: World<F>, ops: Seq<Op<F>>, ws: Seq<World<F>>) -> bool {
    &&& ws.len() == ops.len() + 1
    &&& ws[0] == start
    &&& forall|i: int| 0 <= i < ops.len() ==> op_done(ws[i], #[trigger] ops[i], ws[i + 1])
}

/// What is sent along with a record: the value of a put.
pub open spec fn data_of(vals: Map<u64, Seq<u8>>, r: Logged) -> Option<Seq<u8>> {
    if r.1 is Put {
        Some(vals[r.0])
    } else {
        None
    }
}

/// The file operations for `rec` succeed.
pub open spec fn io_succeeds<F>(s: State<F>, rec: RecordModel, io: ApplyDone<F>) -> bool {
    rec is Put ==> {
        let wrote = io->Wrote_0;
        &&& wrote.result is Ok
        &&& s.with_active(handle(wrote.opened)).active_open()
    }
}

/// What came of a record at a follower: of its file operations, and of all of
/// it.
#[verifier::reject_recursive_types(F)]
pub ghost struct Fed<F> {
    pub io: ApplyDone<F>,
    pub res: Result<(), StoreError>,
}

/// `fs` are the states and the files of a follower that starts as `start` and
/// applies the records of `log`, one after the other.
pub open spec fn feeds<F>(
    start: World<F>,
    log: Seq<Logged>,
    vals: Map<u64, Seq<u8>>,
    fed: Seq<Fed<F>>,
    fs: Seq<(State<F>, Disk)>,
) -> bool {
    &&& fed.len() == log.len()
    &&& fs.len() == log.len() + 1
    &&& fs[0] == (start.s, start.disk)
    &&& forall|i: int|
        0 <= i < log.len() ==> {
            let s = fs[i].0;
            let (lsn, rec) = #[trigger] log[i];
            let data = data_of(vals, log[i]);
            &&& s.can_apply(lsn, rec)
            &&& done_as(s.io_kind(rec, data), fed[i].io)
            &&& io_succeeds(s, rec, fed[i].io)
            &&& applies(s, lsn, rec, data, fed[i].io, fs[i + 1].0, fed[i].res)
            &&& fs[i + 1].1 == disk_after(fs[i].1, s.layout, rec, data)
        }
}

/// The bound on the numbers of the segments that `log` names.
spec fn bound(log: Seq<Logged>) -> u64
    decreases log.len(),
{
    if log.len() == 0 {
        1
    } else {
        next_bound(log.last().1, bound(log.drop_last()))
    }
}

/// `r` is a record that a leader may log after `log`.
spec fn plain_next(log: Seq<Logged>, vals: Map<u64, Seq<u8>>, r: Logged) -> bool {
    let p = played(log);
    &&& forall|i: int| 0 <= i < log.len() ==> (#[trigger] log[i]).0 < r.0
    &&& r.0 < u64::MAX
    &&& match r.1 {
        RecordModel::Put { len, .. } => encodable(r.1) && vals.contains_key(r.0)
            && vals[r.0].len() == len,
        RecordModel::AggDelta { .. } => encodable(r.1),
        RecordModel::Commit { .. } => true,
        RecordModel::SegmentSeal { segment_id, next_segment_id } => segment_id == p.active_id
            && segment_id < u64::MAX && p.active_offset > 0 && bound(log) <= next_segment_id
            < u64::MAX,
        _ => false,
    }
}

/// `log` is that of a leader that puts and commits.
spec fn plain(log: Seq<Logged>, vals: Map<u64, Seq<u8>>) -> bool
    decreases log.len(),
{
    log.len() > 0 ==> plain(log.drop_last(), vals) && plain_next(log.drop_last(), vals, log.last())
}

/// The segment files that `log` leads to.
spec fn disk_of(log: Seq<Logged>, vals: Map<u64, Seq<u8>>) -> Disk
    decreases log.len(),
{
    if log.len() == 0 {
        Map::empty().insert(0u64, Seq::empty())
    } else {
        let front = log.drop_last();
        disk_after(
            disk_of(front, vals),
            played(front),
            log.last().1,
            data_of(vals, log.last()),
        )
    }
}

/// The LSN after those of `log`.
spec fn next_of(log: Seq<Logged>, floor: u64) -> int {
    if log.len() == 0 {
        floor + 1
    } else {
        log.last().0 + 1
    }
}

proof fn lemma_push(log: Seq<Logged>, vals: Map<u64, Seq<u8>>, r: Logged)
    requires
        plain(log, vals),
        plain_next(log, vals, r),
    ensures
        plain(log.push(r), vals),
        disk_of(log.push(r), vals) == disk_after(
            disk_of(log, vals),
            played(log),
            r.1,
            data_of(vals, r),
        ),
        bound(log.push(r)) == next_bound(r.1, bound(log)),
        played(log.push(r)) == played(log).step(r),
{
    assert(log.push(r).drop_last() =~= log);
}

/// A value that `log` does not speak of does not matter.
proof fn lemma_other_vals(log: Seq<Logged>, vals: Map<u64, Seq<u8>>, lsn: u64, value: Seq<u8>)
    requires
        plain(log, vals),
        forall|i: int| 0 <= i < log.len() ==> (#[trigger] log[i]).0 != lsn,
    ensures
        plain(log, vals.insert(lsn, value)),
        disk_of(log, vals.insert(lsn, value)) == disk_of(log, vals),
    decreases log.len(),
{
    if log.len() > 0 {
        let front = log.drop_last();
        assert forall|i: int| 0 <= i < front.len() implies (#[trigger] front[i]).0 != lsn by {
            assert(front[i] == log[i]);
        }
        lemma_other_vals(front, vals, lsn, value);
        assert(log[log.len() - 1].0 != lsn);
    }
}

/// A leader's log says where it is and what is on its disk.
spec fn mirrors<F>(s: State<F>, disk: Disk, vals: Map<u64, Seq<u8>>, floor: u64) -> bool {
    let log = s.wal.log();
    &&& plain(log, vals)
    &&& disk == disk_of(log, vals)
    &&& s.layout.active_id == played(log).active_id
    &&& s.layout.active_offset == played(log).active_offset
    &&& s.layout.active_id < s.next_free_id
    &&& bound(log) <= s.next_free_id
    &&& forall|i: int| 0 <= i < log.len() ==> floor < (#[trigger] log[i]).0 < s.wal.next_lsn
    &&& s.wal.next_lsn == next_of(log, floor)
    &&& s.swap is None
}

proof fn lemma_mirrors_logged<F>(
    s: State<F>,
    disk: Disk,
    vals: Map<u64, Seq<u8>>,
    floor: u64,
    rec: RecordModel,
)
    requires
        mirrors(s, disk, vals, floor),
        s.wal.next_lsn < u64::MAX,
        plain_next(s.wal.log(), vals, (s.wal.next_lsn, rec)),
    ensures
        ({
            let t = s.logged(rec, s.wal.next_lsn);
            let log = t.wal.log();
            &&& log == s.wal.log().push((s.wal.next_lsn, rec))
            &&& plain(log, vals)
            &&& disk_of(log, vals) == disk_after(
                disk,
                played(s.wal.log()),
                rec,
                data_of(vals, (s.wal.next_lsn, rec)),
            )
            &&& played(log) == played(s.wal.log()).step((s.wal.next_lsn, rec))
            &&& bound(log) == next_bound(rec, bound(s.wal.log()))
            &&& forall|i: int| 0 <= i < log.len() ==> floor < (#[trigger] log[i]).0 < t.wal.next_lsn
            &&& t.wal.next_lsn == next_of(log, floor)
        }),
{
    let r = (s.wal.next_lsn, rec);
    let log = s.wal.log();
    lemma_appended_log(s, rec, s.wal.next_lsn);
    lemma_push(log, vals, r);
    assert forall|i: int| 0 <= i < log.push(r).len() implies floor < (
    #[trigger] log.push(r)[i]).0 <= s.wal.next_lsn by {
        if i < log.len() {
            assert(log.push(r)[i] == log[i]);
        } else if log.len() > 0 {
            assert(floor < log[log.len() - 1].0);
        }
    }
}

proof fn lemma_mirrors_seal<F>(s: State<F>, disk: Disk, vals: Map<u64, Seq<u8>>, floor: u64)
    requires
        mirrors(s, disk, vals, floor),
        s.layout.active_offset > 0,
        s.wal.next_lsn < u64::MAX,
        s.next_free_id < u64::MAX,
    ensures
        mirrors(s.seal_active(), disk, vals, floor),
{
    lemma_mirrors_logged(s, disk, vals, floor, s.seal_record());
}

proof fn lemma_mirrors_put<F>(w: World<F>, op: Op<F>, w2: World<F>, floor: u64)
    requires
        mirrors(w.s, w.disk, w.vals, floor),
        op is Put,
        op_done(w, op, w2),
    ensures
        mirrors(w2.s, w2.disk, w2.vals, floor),
{
    let (key, value, opened) = (op->key, op->value, handle(op->io.opened));
    let len = value.len() as u32;
    let sealed = w.s.before_put(value.len());
    if w.s.seal_due(value.len()) {
        lemma_mirrors_seal(w.s, w.disk, w.vals, floor);
    }
    let ready = sealed.with_active(opened);
    assert(mirrors(ready, w.disk, w.vals, floor));
    let lsn = ready.wal.next_lsn;
    let log = ready.wal.log();
    lemma_other_vals(log, w.vals, lsn, value);
    let vals = w2.vals;
    assert(mirrors(ready, w.disk, vals, floor));
    let put = put_record(key, len, lsn);
    assert(plain_next(log, vals, (lsn, put)));
    lemma_mirrors_logged(ready, w.disk, vals, floor, put);
    let p = State { layout: ready.layout.put(key, len, lsn), ..ready.logged(put, lsn) };
    assert(mirrors(p, w2.disk, vals, floor));
    let agg = agg_record(key, len);
    assert(plain_next(p.wal.log(), vals, ((lsn + 1) as u64, agg)));
    lemma_mirrors_logged(p, w2.disk, vals, floor, agg);
    let a = State {
        dirty: ready.dirty.insert(ready.layout.active_id),
        ..p.logged(agg, (lsn + 1) as u64)
    };
    assert(mirrors(a, w2.disk, vals, floor));
    if len > ready.max {
        lemma_mirrors_seal(a, w2.disk, vals, floor);
        assert(w2.s == a.seal_active());
    } else {
        assert(w2.s == a);
    }
}

proof fn lemma_leader<F>(
    start: World<F>,
    ops: Seq<Op<F>>,
    ws: Seq<World<F>>,
    max: u64,
    floor: u64,
    next_id: u64,
    file: F,
    i: int,
)
    requires
        next_id > 0,
        floor < u64::MAX,
        start == created(max, floor, next_id, file),
        leads(start, ops, ws),
        0 <= i < ws.len(),
    ensures
        healthy(ws[i].s, ws[i].disk, ws[i].vals),
        mirrors(ws[i].s, ws[i].disk, ws[i].vals, floor),
    decreases i,
{
    if i == 0 {
        lemma_new_store_is_healthy::<F>(max, floor, next_id, file);
        lemma_created(start, max, floor, next_id, file);
    } else {
        lemma_leader(start, ops, ws, max, floor, next_id, file, i - 1);
        let w = ws[i - 1];
        assert(op_done(w, ops[i - 1], ws[i - 1 + 1]));
        match ops[i - 1] {
            Op::Put { key, value, io, .. } => {
                lemma_put_keeps_healthy(w.s, w.disk, w.vals, handle(io.opened), key, value);
                lemma_mirrors_put(w, ops[i - 1], ws[i], floor);
            },
            Op::Commit { upto, .. } => if w.s.pending {
                lemma_commit_keeps_healthy(w.s, w.disk, w.vals, upto);
                let rec = RecordModel::Commit { lsn: upto };
                lemma_mirrors_logged(w.s, w.disk, w.vals, floor, rec);
                assert(ws[i].s.wal.log() =~= w.s.logged(rec, w.s.wal.next_lsn).wal.log());
            },
        }
    }
}

proof fn lemma_created<F>(w: World<F>, max: u64, floor: u64, next_id: u64, file: F)
    requires
        next_id > 0,
        floor < u64::MAX,
        w == created(max, floor, next_id, file),
    ensures
        mirrors(w.s, w.disk, w.vals, floor),
        w.s.wal.log().len() == 0,
{
    lemma_new_store_faithful::<F>(max, floor, next_id);
}

/// Every part of a leader's log from the start on is a leader's log.
proof fn lemma_plain_at(log: Seq<Logged>, vals: Map<u64, Seq<u8>>, i: int)
    requires
        plain(log, vals),
        0 <= i <= log.len(),
    ensures
        plain(log.take(i), vals),
    decreases log.len() - i,
{
    if i < log.len() {
        lemma_plain_at(log, vals, i + 1);
        assert(log.take(i + 1).drop_last() =~= log.take(i));
    } else {
        assert(log.take(i) =~= log);
    }
}

/// A leader that puts and commits replaces no segment.
proof fn lemma_plain_keeps_segments(log: Seq<Logged>, vals: Map<u64, Seq<u8>>)
    requires
        plain(log, vals),
    ensures
        swaps(log).len() == 0,
        recovered(log) == played(log),
        forall|id: u64| !was_replaced(log, id),
    decreases log.len(),
{
    if log.len() > 0 {
        lemma_plain_keeps_segments(log.drop_last(), vals);
    }
}

/// Every put of a leader's log is in a file.
proof fn lemma_puts_have_files(log: Seq<Logged>, vals: Map<u64, Seq<u8>>)
    requires
        plain(log, vals),
    ensures
        forall|lsn: u64| #[trigger]
            played(log).puts.contains_key(lsn) ==> disk_of(log, vals).contains_key(
                played(log).puts[lsn].seg,
            ),
    decreases log.len(),
{
    if log.len() > 0 {
        let front = log.drop_last();
        lemma_puts_have_files(front, vals);
        assert forall|lsn: u64| #[trigger] played(log).puts.contains_key(lsn) implies disk_of(
            log,
            vals,
        ).contains_key(played(log).puts[lsn].seg) by {
            if lsn != log.last().0 || !(log.last().1 is Put) {
                assert(played(front).puts.contains_key(lsn));
            }
        }
    }
}

/// What holds of a follower that has applied `log`.
spec fn copied<F>(
    s: State<F>,
    disk: Disk,
    log: Seq<Logged>,
    vals: Map<u64, Seq<u8>>,
    floor: u64,
    sent: Map<u64, Seq<u8>>,
) -> bool {
    &&& in_step(s, bound(log), disk, Seq::empty(), sent)
    &&& s.wal.log() == log
    &&& s.swap is None
    &&& disk == disk_of(log, vals)
    &&& s.wal.next_lsn == next_of(log, floor)
}

/// A follower takes every record of a leader, and stays a copy.
proof fn lemma_fed<F>(
    start: World<F>,
    log: Seq<Logged>,
    vals: Map<u64, Seq<u8>>,
    fed: Seq<Fed<F>>,
    fs: Seq<(State<F>, Disk)>,
    max: u64,
    floor: u64,
    next_id: u64,
    file: F,
    i: int,
) -> (sent: Map<u64, Seq<u8>>)
    requires
        next_id > 0,
        floor < u64::MAX,
        start == created(max, floor, next_id, file),
        plain(log, vals),
        forall|j: int| 0 <= j < log.len() ==> floor < (#[trigger] log[j]).0,
        feeds(start, log, vals, fed, fs),
        0 <= i <= log.len(),
    ensures
        copied(fs[i].0, fs[i].1, log.take(i), vals, floor, sent),
        forall|j: int| 0 <= j < i ==> (#[trigger] fed[j]).res is Ok,
    decreases i,
{
    if i == 0 {
        let u = created(max, floor, 1, file);
        lemma_new_store_is_healthy::<F>(max, floor, 1, file);
        lemma_healthy_is_in_step(u.s, u.disk, Seq::empty(), u.vals);
        lemma_created(start, max, floor, next_id, file);
        assert(log.take(0) =~= start.s.wal.log());
        u.vals
    } else {
        let sent = lemma_fed(start, log, vals, fed, fs, max, floor, next_id, file, i - 1);
        let front = log.take(i - 1);
        let s = fs[i - 1].0;
        let disk = fs[i - 1].1;
        let (lsn, rec) = log[i - 1];
        let data = data_of(vals, log[i - 1]);
        assert(log.take(i).drop_last() =~= front);
        assert(front.push(log[i - 1]) =~= log.take(i));
        lemma_plain_at(log, vals, i);
        lemma_plain_keeps_segments(front, vals);
        assert(agree(recovered(front), s.layout));
        if i > 1 {
            assert(front[i - 2] == log[i - 2]);
            assert(front[i - 2].0 < lsn);
        }
        assert(s.wal.next_lsn <= lsn);
        let io = fed[i - 1].io;
        let after = fs[i - 1 + 1].0;
        assert(applies(s, lsn, rec, data, io, after, fed[i - 1].res));
        assert(fed[i - 1].res is Ok);
        lemma_apply_keeps_in_step(
            s,
            bound(front),
            disk,
            Seq::empty(),
            sent,
            lsn,
            rec,
            data,
            io,
            after,
            fed[i - 1].res,
            Seq::empty(),
        );
        assert(after.wal.next_lsn == lsn + 1);
        vals_after(sent, lsn, rec, data)
    }
}

/// Follower convergence: a follower that starts out as the leader did, and is
/// sent every record of a leader that puts and commits, in order and with the
/// values, takes every one of them, as long as its disk works. After a sync it
/// has the leader's log on disk and the leader's segment files, numbers and
/// commits as the leader does, and reads for every key what the leader reads,
/// whatever length its own segments are not to exceed.
pub proof fn lemma_follower_becomes_a_copy<F, G>(
    ops: Seq<Op<F>>,
    ws: Seq<World<F>>,
    max: u64,
    next_id: u64,
    file: F,
    fed: Seq<Fed<G>>,
    fs: Seq<(State<G>, Disk)>,
    follower_max: u64,
    follower_next_id: u64,
    follower_file: G,
    floor: u64,
)
    requires
        next_id > 0,
        follower_next_id > 0,
        floor < u64::MAX,
        leads(created(max, floor, next_id, file), ops, ws),
        feeds(
            created(follower_max, floor, follower_next_id, follower_file),
            ws.last().s.wal.log(),
            ws.last().vals,
            fed,
            fs,
        ),
    ensures
        forall|j: int| 0 <= j < fed.len() ==> (#[trigger] fed[j]).res is Ok,
        ({
            let leader = ws.last();
            let follower = fs.last().0.all_synced();
            &&& follower.wal.durable == leader.s.wal.log()
            &&& follower.wal.buffered.len() == 0
            &&& follower.wal.next_lsn == leader.s.wal.next_lsn
            &&& follower.layout.committed_lsn == leader.s.layout.committed_lsn
            &&& follower.layout.last_commit_block == leader.s.layout.last_commit_block
            &&& follower.durable_commit == leader.s.layout.last_commit_block
            &&& follower.layout.live == leader.s.layout.live
            &&& fs.last().1 == leader.disk
            &&& forall|key: Seq<char>| #[trigger]
                got(follower.snapshot(), fs.last().1, key) == got(
                    leader.s.snapshot(),
                    leader.disk,
                    key,
                )
        }),
{
    let w = ws.last();
    let log = w.s.wal.log();
    let last = ws.len() - 1;
    let start = created(max, floor, next_id, file);
    lemma_leader(start, ops, ws, max, floor, next_id, file, last);
    let begin = created(follower_max, floor, follower_next_id, follower_file);
    let sent = lemma_fed(
        begin,
        log,
        w.vals,
        fed,
        fs,
        follower_max,
        floor,
        follower_next_id,
        follower_file,
        log.len() as int,
    );
    assert(log.take(log.len() as int) =~= log);
    let f = fs.last().0;
    let disk = fs.last().1;
    let t = f.all_synced();
    assert(t.wal.durable =~= log);
    lemma_same_log_same_layout(w.s, f, w.s.next_free_id, bound(log));
    lemma_plain_keeps_segments(log, w.vals);
    lemma_puts_have_files(log, w.vals);
    assert(agree(recovered(log), w.s.layout) && agree(recovered(log), f.layout));
    assert(w.s.layout.puts =~= played(log).puts);
    assert(f.layout.puts =~= played(log).puts);
    assert forall|key: Seq<char>| #[trigger] got(t.snapshot(), disk, key) == got(
        w.s.snapshot(),
        w.disk,
        key,
    ) by {
        let l = w.s.layout;
        lemma_visible(l.index, l.puts, l.committed_lsn, key);
        assert(t.snapshot().index == w.s.snapshot().index);
        if let Some(at) = lookup(w.s.snapshot().index, key) {
            assert(w.disk.contains_key(at.seg)) by {
                lemma_slot(l.index, key);
                let i = slot(l.index, key);
                if l.index[i].1.lsn <= l.committed_lsn {
                    assert(l.puts.contains_key(l.index[i].1.lsn));
                } else {
                    let lsn = choose|x: u64| is_newest(l.puts, key, l.committed_lsn, x);
                    assert(is_newest(l.puts, key, l.committed_lsn, lsn));
                    assert(l.puts.contains_key(lsn));
                }
            }
        }
    }
}

/// The leader's store at work.
spec fn service_of<F>(w: World<F>) -> Service<F> {
    at_work(w.s, w.shown, w.disk, w.vals)
}

/// What readers are shown of a leader, and what is on its disk, is all of it
/// unless something waits for a commit.
spec fn settled_unless_pending<F>(w: World<F>) -> bool {
    &&& serving(service_of(w))
    &&& w.s.pending || (w.shown == w.s.snapshot() && w.s.wal.buffered.len() == 0)
    &&& w.s.durable_commit == w.s.layout.last_commit_block
}

proof fn lemma_leader_settles<F>(
    start: World<F>,
    ops: Seq<Op<F>>,
    ws: Seq<World<F>>,
    max: u64,
    floor: u64,
    next_id: u64,
    file: F,
    i: int,
)
    requires
        next_id > 0,
        floor < u64::MAX,
        start == created(max, floor, next_id, file),
        leads(start, ops, ws),
        forall|k: int| 0 <= k < ws.len() ==> fits((#[trigger] ws[k]).s.snapshot()),
        0 <= i < ws.len(),
    ensures
        settled_unless_pending(ws[i]),
    decreases i,
{
    assert(fits(ws[i].s.snapshot()));
    if i == 0 {
        lemma_new_store_is_healthy::<F>(max, floor, next_id, file);
        lemma_created(start, max, floor, next_id, file);
        lemma_new_store_faithful::<F>(max, floor, next_id);
        lemma_opened_store_serves(start.s, start.disk, start.vals);
        assert(service_of(start) == opened_service(start.s, start.disk, start.vals));
    } else {
        lemma_leader_settles(start, ops, ws, max, floor, next_id, file, i - 1);
        let (w, w2) = (ws[i - 1], ws[i]);
        let (v, v2) = (service_of(w), service_of(w2));
        assert(op_done(w, ops[i - 1], ws[i - 1 + 1]));
        match ops[i - 1] {
            Op::Put { key, value, io, staged } => {
                let step = Step::Put { key, value, io, staged };
                assert(step_done(v, step, v2));
                lemma_steps_are_shown(v, step, v2);
            },
            Op::Commit { upto, segments, wal, res } => {
                let step = Step::Commit { upto, segments, wal, res };
                assert(step_done(v, step, v2));
                lemma_steps_are_shown(v, step, v2);
            },
        }
    }
}

/// Follower convergence, as readers see it: the leader's last call is a commit
/// of everything that it has staged; the follower applies all that the leader
/// has logged, and then syncs. `synced` and `shown` are its state and what its
/// readers are shown after that. It has the leader's log and segment files on
/// disk, and the leader's numbers, and reads for every key what the leader
/// reads. The totals fit in 64 bits.
pub proof fn lemma_synced_follower_reads_alike<F, G>(
    ops: Seq<Op<F>>,
    ws: Seq<World<F>>,
    max: u64,
    next_id: u64,
    file: F,
    fed: Seq<Fed<G>>,
    fs: Seq<(State<G>, Disk)>,
    follower_max: u64,
    follower_next_id: u64,
    follower_file: G,
    floor: u64,
    segments: Result<(), StoreError>,
    wal: Result<(), StoreError>,
    synced: State<G>,
    shown: Published<G>,
    res: Result<(), StoreError>,
)
    requires
        next_id > 0,
        follower_next_id > 0,
        floor < u64::MAX,
        leads(created(max, floor, next_id, file), ops, ws),
        forall|k: int| 0 <= k < ws.len() ==> fits((#[trigger] ws[k]).s.snapshot()),
        ops.len() > 0,
        ops.last() is Commit,
        ws[ops.len() - 1].s.wal.next_lsn <= ops.last()->upto + 1,
        feeds(
            created(follower_max, floor, follower_next_id, follower_file),
            ws.last().s.wal.log(),
            ws.last().vals,
            fed,
            fs,
        ),
        syncs(
            fs.last().0,
            created(follower_max, floor, follower_next_id, follower_file).shown,
            segments,
            wal,
            synced,
            shown,
            res,
        ),
        res is Ok,
    ensures
        forall|j: int| 0 <= j < fed.len() ==> (#[trigger] fed[j]).res is Ok,
        synced.wal.durable == ws.last().s.wal.durable,
        synced.wal.buffered.len() == 0 && ws.last().s.wal.buffered.len() == 0,
        synced.wal.next_lsn == ws.last().s.wal.next_lsn,
        synced.durable_commit == ws.last().s.durable_commit,
        shown.committed == ws.last().shown.committed,
        fs.last().1 == ws.last().disk,
        forall|key: Seq<char>| #[trigger]
            got(shown, fs.last().1, key) == got(ws.last().shown, ws.last().disk, key),
{
    lemma_follower_becomes_a_copy(
        ops,
        ws,
        max,
        next_id,
        file,
        fed,
        fs,
        follower_max,
        follower_next_id,
        follower_file,
        floor,
    );
    let n = ops.len() as int;
    let start = created(max, floor, next_id, file);
    let begin = created(follower_max, floor, follower_next_id, follower_file);
    let (v, w) = (ws[n - 1], ws[n]);
    lemma_leader(start, ops, ws, max, floor, next_id, file, n - 1);
    lemma_leader(start, ops, ws, max, floor, next_id, file, n);
    lemma_leader_settles(start, ops, ws, max, floor, next_id, file, n - 1);
    lemma_leader_settles(start, ops, ws, max, floor, next_id, file, n);
    assert(op_done(v, ops[n - 1], ws[n - 1 + 1]));
    if v.s.pending {
        lemma_commit_keeps_healthy(v.s, v.disk, v.vals, ops.last()->upto);
    }
    assert(caught_up(w.s.layout));
    assert(!w.s.pending);
    assert(w.s.wal.durable =~= w.s.wal.log());
    let log = w.s.wal.log();
    let sent = lemma_fed(
        begin,
        log,
        w.vals,
        fed,
        fs,
        follower_max,
        floor,
        follower_next_id,
        follower_file,
        log.len() as int,
    );
    assert(log.take(log.len() as int) =~= log);
    let f = fs.last().0;
    assert(synced == f.all_synced());
    lemma_same_log_same_layout(w.s, f, w.s.next_free_id, bound(log));
    assert(caught_up(f.layout)) by {
        assert forall|i: int| 0 <= i < f.layout.index.len() implies (
        #[trigger] f.layout.index[i]).1.lsn <= f.layout.committed_lsn by {
            assert(w.s.layout.index[i].1.lsn <= w.s.layout.committed_lsn);
        }
    }
    lemma_committed_is_readable(f, fs.last().1, sent);
    lemma_all_visible(f.layout.index, f.layout.puts, f.layout.committed_lsn);
    lemma_all_visible(w.s.layout.index, w.s.layout.puts, w.s.layout.committed_lsn);
    lemma_visible(f.layout.index, f.layout.puts, f.layout.committed_lsn, Seq::empty());
    lemma_new_store_faithful::<G>(follower_max, floor, follower_next_id);
    assert(begin.shown.index =~= Seq::empty());
    assert(follows(synced.snapshot(), begin.shown)) by {
        assert forall|key: Seq<char>| (#[trigger] lookup(begin.shown.index, key)) is None by {
            lemma_slot(begin.shown.index, key);
        }
    }
    assert(shown == synced.snapshot());
}

} // verus!
