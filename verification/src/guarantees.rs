//! What the store and the node promise as a whole.

use vstd::prelude::*;

use crate::block::BLOCK_SIZE;
use crate::coverage::{cut, survives};
use crate::durability::{settled, was_replaced};
use crate::error::{ErrorModel, StoreError};
use crate::history::{
    all_committed, compaction_logged, healthy, lemma_compaction_keeps_healthy,
    lemma_commit_keeps_underway, lemma_compaction_keeps_put, lemma_compaction_logged,
    lemma_compaction_starts, lemma_healthy_reads_values, lemma_reopened_is_healthy, reopened,
    replacement_of,
};
use crate::layout::{committed_lengths, recovered, Layout, PutModel};
use crate::replay::lemma_repoint_all_frame;
use crate::segment::compact::{
    compact_records, plan_logged, plans, put_in, puts_len, stage_done, stage_of, PlanModel,
    StageModel,
};
use crate::segment::{commits, Store};
use crate::showing::{
    at_work, lemma_opened_store_serves, lemma_reopened_is_open, lemma_steps_are_shown, serving,
    step_done, Service, Step,
};
use crate::state::{Published, State};
use crate::table::{lemma_slot, lookup, slot};
use crate::text::digits;
use crate::values::{holds, holds_copies, lemma_repointed, value_of, Disk};
use crate::visible::{blank, caught_up, fits, lemma_all_visible, shows};
use crate::wal::{log_bytes, log_encodable, logged_of, EntryModel, Logged};

verus! {

/// What reading `len` bytes of a segment gives. Where `disk` has no file, the
/// file is empty.
pub open spec fn fetched(disk: Disk, seg: u64, offset: u64, len: u32) -> Result<
    Seq<u8>,
    ErrorModel,
> {
    if len == 0 {
        Ok(Seq::empty())
    } else if disk.contains_key(seg) && offset + len <= disk[seg].len() {
        Ok(disk[seg].subrange(offset as int, offset + len))
    } else {
        Err(ErrorModel::Corrupt("short segment read"@))
    }
}

/// A value in its place is read.
pub proof fn lemma_fetched(disk: Disk, p: PutModel, value: Seq<u8>)
    requires
        holds(disk, p, value),
    ensures
        fetched(disk, p.seg, p.offset, p.len) == Ok::<Seq<u8>, ErrorModel>(value),
{
    if p.len == 0 {
        assert(value =~= Seq::empty());
    }
}

/// What a read of `key` gives, if it was put at or below `upto`: the bytes in
/// their place on `disk`.
pub open spec fn got_upto<F>(p: Published<F>, disk: Disk, key: Seq<char>, upto: u64) -> Result<
    Option<Seq<u8>>,
    ErrorModel,
> {
    match p.read_upto(key, upto) {
        Ok(Some(_)) => {
            let at = lookup(p.index, key)->0;
            match fetched(disk, at.seg, at.offset, at.len) {
                Ok(value) => Ok(Some(value)),
                Err(e) => Err(e),
            }
        },
        Ok(None) => Ok(None),
        Err(e) => Err(e),
    }
}

/// What a read of `key` gives.
pub open spec fn got<F>(p: Published<F>, disk: Disk, key: Seq<char>) -> Result<
    Option<Seq<u8>>,
    ErrorModel,
> {
    got_upto(p, disk, key, u64::MAX)
}

/// What a read of the put at `lsn` gives.
pub open spec fn got_put<F>(p: Published<F>, disk: Disk, lsn: u64) -> Result<Seq<u8>, ErrorModel> {
    match p.read_put(lsn) {
        Ok(_) => {
            let at = p.puts[lsn];
            fetched(disk, at.seg, at.offset, at.len)
        },
        Err(e) => Err(e),
    }
}

/// A store in order, with everything committed, gives back what was put.
pub proof fn lemma_got<F>(s: State<F>, disk: Disk, vals: Map<u64, Seq<u8>>, key: Seq<char>)
    requires
        healthy(s, disk, vals),
        caught_up(s.layout),
    ensures
        got(s.snapshot(), disk, key) == Ok::<Option<Seq<u8>>, ErrorModel>(
            value_of(s.layout, vals, key),
        ),
{
    lemma_healthy_reads_values(s, disk, vals, key);
    lemma_all_visible(s.layout.index, s.layout.puts, s.layout.committed_lsn);
    lemma_slot(s.layout.index, key);
    if let Some(at) = lookup(s.layout.index, key) {
        let i = slot(s.layout.index, key);
        assert(s.layout.index[i].1 == at);
        assert(s.layout.puts.contains_key(at.lsn));
        lemma_fetched(disk, s.layout.puts[at.lsn], vals[at.lsn]);
    }
}

/// The store once a planned compaction is logged, committed and completed.
pub open spec fn compaction_done<F>(s: State<F>, plan: PlanModel<F>, upto: u64, file: F) -> State<
    F,
> {
    compaction_logged(s, plan).committed(upto).compacted(
        plan.old,
        plan.new,
        file,
        plan.entries,
        plan.dropped.to_set(),
    )
}

/// The files once `bytes` has taken the place of the segment that a compaction
/// rewrites.
pub open spec fn disk_done<F>(disk: Disk, plan: PlanModel<F>, bytes: Seq<u8>) -> Disk {
    disk.insert(plan.new, bytes).remove(plan.old)
}

/// `q`, with the files `after`, gives for every key what `p` gave with the
/// files `disk`, and for every put too, but for those in `gone`, whose bytes
/// it does not find.
pub open spec fn unchanged_but<F>(
    p: Published<F>,
    disk: Disk,
    q: Published<F>,
    after: Disk,
    gone: Seq<u64>,
) -> bool {
    &&& forall|key: Seq<char>| #[trigger] got(q, after, key) == got(p, disk, key)
    &&& forall|lsn: u64|
        p.puts.contains_key(lsn) && disk.contains_key(p.puts[lsn].seg) && !gone.contains(lsn)
            ==> #[trigger] got_put(q, after, lsn) == got_put(p, disk, lsn) && got_put(
            p,
            disk,
            lsn,
        ) is Ok
    &&& forall|lsn: u64|
        gone.contains(lsn) && p.puts[lsn].len > 0 ==> (#[trigger] got_put(q, after, lsn)) is Err
}

/// Compaction safety: a compaction that is committed and completed changes
/// what no key gives, and no put but those that it drops, which are refused
/// from then on as puts that are not there.
pub proof fn lemma_compaction_is_safe<F>(
    s: State<F>,
    disk: Disk,
    vals: Map<u64, Seq<u8>>,
    horizon: u64,
    plan: PlanModel<F>,
    file: F,
    bytes: Seq<u8>,
    upto: u64,
)
    requires
        healthy(s, disk, vals),
        caught_up(s.layout),
        plans(s, horizon, plan),
        holds_copies(disk, plan, s.layout, bytes),
        s.next_free_id < u64::MAX,
        s.wal.next_lsn + plan.entries.len() + 1 < u64::MAX,
    ensures
        ({
            let t = compaction_done(s, plan, upto, file);
            &&& unchanged_but(
                s.snapshot(),
                disk,
                t.snapshot(),
                disk_done(disk, plan, bytes),
                plan.dropped,
            )
            &&& t.layout.live == s.layout.live
            &&& forall|lsn: u64|
                plan.dropped.contains(lsn) ==> (#[trigger] t.snapshot().read_put(lsn) == Err::<
                    (F, u64, u32),
                    ErrorModel,
                >(ErrorModel::Corrupt("no put at lsn "@ + digits(lsn as nat))))
            &&& caught_up(t.layout)
            &&& healthy(t, disk_done(disk, plan, bytes), vals)
            &&& all_committed(t)
        }),
{
    let t = compaction_done(s, plan, upto, file);
    let disk2 = disk_done(disk, plan, bytes);
    let gone = plan.dropped.to_set();
    let c = compaction_logged(s, plan).committed(upto);
    lemma_compaction_keeps_healthy(s, disk, vals, horizon, plan, file, bytes, upto);
    lemma_compaction_logged(s, plan);
    lemma_repoint_all_frame(c.layout, plan.entries, plan.new);
    lemma_moved_lsns(c.layout, plan.entries, plan.new);
    assert(caught_up(t.layout)) by {
        assert forall|i: int| 0 <= i < t.layout.index.len() implies (
        #[trigger] t.layout.index[i]).1.lsn <= t.layout.committed_lsn by {
            assert(s.layout.index[i].1.lsn <= s.layout.committed_lsn);
        }
    }
    assert forall|key: Seq<char>| #[trigger] got(t.snapshot(), disk2, key) == got(
        s.snapshot(),
        disk,
        key,
    ) by {
        lemma_got(s, disk, vals, key);
        lemma_got(t, disk2, vals, key);
        assert(value_of(t.layout, vals, key) == value_of(s.layout, vals, key));
    }
    assert forall|lsn: u64|
        s.layout.puts.contains_key(lsn) && disk.contains_key(s.layout.puts[lsn].seg)
            && !plan.dropped.contains(lsn) implies #[trigger] got_put(t.snapshot(), disk2, lsn)
        == got_put(s.snapshot(), disk, lsn) && got_put(s.snapshot(), disk, lsn) is Ok by {
        lemma_compaction_keeps_put(s, disk, vals, horizon, plan, file, bytes, upto, lsn);
        lemma_fetched(disk, s.layout.puts[lsn], vals[lsn]);
        lemma_fetched(disk2, t.layout.puts[lsn], vals[lsn]);
    }
    assert forall|lsn: u64| plan.dropped.contains(lsn) implies !(
    #[trigger] t.layout.puts.contains_key(lsn)) by {
        assert(gone.contains(lsn));
    }
}

/// Compaction safety, across a restart: the store that is opened after the
/// compaction still gives for every key what was there before it, and for
/// every put that was not dropped. More may have been logged and written in
/// between, without another commit, and the log's end may be damaged. Opening
/// leaves the files of replaced segments empty.
pub proof fn lemma_compaction_survives_restart<F>(
    s: State<F>,
    disk: Disk,
    vals: Map<u64, Seq<u8>>,
    horizon: u64,
    plan: PlanModel<F>,
    file: F,
    bytes: Seq<u8>,
    upto: u64,
    later: Seq<Logged>,
    damaged: Seq<u8>,
    rest: Seq<u8>,
    after: Disk,
    floor: u64,
    u: State<F>,
)
    requires
        healthy(s, disk, vals),
        caught_up(s.layout),
        plans(s, horizon, plan),
        holds_copies(disk, plan, s.layout, bytes),
        s.next_free_id < u64::MAX,
        s.wal.next_lsn + plan.entries.len() + 1 < u64::MAX,
        ({
            let t = compaction_done(s, plan, upto, file);
            &&& log_encodable(t.wal.durable + later)
            &&& forall|i: int|
                0 <= i < later.len() ==> !((#[trigger] later[i]).1 is Commit) && later[i].0
                    >= t.wal.next_lsn
            &&& survives(
                disk_done(disk, plan, bytes),
                after,
                committed_lengths(t.wal.durable),
            )
            &&& reopened(u, log_bytes(t.wal.durable + later) + damaged + rest, floor)
        }),
        damaged.len() <= BLOCK_SIZE,
        damaged.len() == BLOCK_SIZE ==> logged_of(damaged) is None,
        damaged.len() < BLOCK_SIZE ==> rest.len() == 0,
    ensures
        unchanged_but(
            s.snapshot(),
            disk,
            u.snapshot(),
            cut(
                after,
                committed_lengths(compaction_done(s, plan, upto, file).wal.durable),
            ).restrict(disk_done(disk, plan, bytes).dom()),
            plan.dropped,
        ),
        healthy(
            u,
            cut(
                after,
                committed_lengths(compaction_done(s, plan, upto, file).wal.durable),
            ).restrict(disk_done(disk, plan, bytes).dom()),
            vals,
        ),
        caught_up(u.layout),
        u.layout.live == s.layout.live,
{
    let t = compaction_done(s, plan, upto, file);
    let disk2 = disk_done(disk, plan, bytes);
    let disk3 = cut(after, committed_lengths(t.wal.durable)).restrict(disk2.dom());
    lemma_compaction_is_safe(s, disk, vals, horizon, plan, file, bytes, upto);
    lemma_reopened_is_healthy(t, disk2, vals, later, damaged, rest, after, floor, u);
    assert forall|key: Seq<char>| #[trigger] got(u.snapshot(), disk3, key) == got(
        s.snapshot(),
        disk,
        key,
    ) by {
        lemma_got(t, disk2, vals, key);
        lemma_got(u, disk3, vals, key);
        assert(value_of(u.layout, vals, key) == value_of(t.layout, vals, key));
        assert(got(t.snapshot(), disk2, key) == got(s.snapshot(), disk, key));
    }
    assert forall|lsn: u64|
        s.layout.puts.contains_key(lsn) && disk.contains_key(s.layout.puts[lsn].seg)
            && !plan.dropped.contains(lsn) implies #[trigger] got_put(u.snapshot(), disk3, lsn)
        == got_put(s.snapshot(), disk, lsn) by {
        lemma_compaction_keeps_put(s, disk, vals, horizon, plan, file, bytes, upto, lsn);
        assert(got_put(t.snapshot(), disk2, lsn) == got_put(s.snapshot(), disk, lsn));
        assert(u.layout.puts.contains_key(lsn));
        assert(u.layout.puts[lsn] == t.layout.puts[lsn]);
        assert(disk2.contains_key(t.layout.puts[lsn].seg));
        assert(disk3.contains_key(u.layout.puts[lsn].seg));
        lemma_fetched(disk2, t.layout.puts[lsn], vals[lsn]);
        lemma_fetched(disk3, u.layout.puts[lsn], vals[lsn]);
    }
    let c = compaction_logged(s, plan).committed(upto);
    let m = replacement_of(plan);
    let gone = plan.dropped.to_set();
    lemma_compaction_logged(s, plan);
    lemma_compaction_starts(s, disk, vals, horizon, plan, bytes);
    lemma_commit_keeps_underway(
        compaction_logged(s, plan),
        Some(m),
        gone,
        bytes,
        disk,
        vals,
        upto,
    );
    lemma_repointed(c.layout, m.old, m.new, m.entries);
    assert forall|lsn: u64|
        plan.dropped.contains(lsn) && s.layout.puts[lsn].len > 0 implies (#[trigger] got_put(
        u.snapshot(),
        disk3,
        lsn,
    )) is Err by {
        assert(gone.contains(lsn));
        assert(!t.layout.puts.contains_key(lsn));
        assert(put_in(c.layout, m.old, lsn));
        assert(settled(c.layout, Some(m)).puts[lsn] == s.layout.puts[lsn]);
        assert(settled(c.layout, Some(m)).puts.dom().contains(lsn));
        assert(recovered(c.wal.log()).puts[lsn] == s.layout.puts[lsn]);
        assert(was_replaced(t.wal.log(), u.layout.puts[lsn].seg));
        assert(!disk2.contains_key(u.layout.puts[lsn].seg));
    }
}

/// The calls that a compaction takes, with what they give: `compact_plan`,
/// `compact_stage`, `commit` up to the last record staged, and
/// `compact_commit`, all of which succeed. Each store is the one that the call
/// before left.
pub open spec fn compacts<F>(
    s: Store<F>,
    planned: Store<F>,
    staged: Store<F>,
    committed: Store<F>,
    done: Store<F>,
    horizon: u64,
    plan: PlanModel<F>,
    stage: StageModel<F>,
    segments: Result<(), StoreError>,
    wal: Result<(), StoreError>,
    res: Result<(), StoreError>,
    freed: u64,
) -> bool {
    &&& plans(s.state(), horizon, plan)
    &&& planned.state() == (State {
        next_free_id: (s.state().next_free_id + 1) as u64,
        ..s.state()
    })
    &&& planned.shown() == s.shown()
    &&& staged.state() == plan_logged(planned.state(), plan)
    &&& staged.shown() == planned.shown()
    &&& stage == stage_of(planned.state(), plan, stage.file)
    &&& commits(
        staged.state(),
        staged.shown(),
        stage.records.last().0,
        segments,
        wal,
        committed.state(),
        committed.shown(),
        res,
    )
    &&& res is Ok
    &&& done.state() == stage_done(committed.state(), stage)
    &&& done.shown() == shows(done.state().snapshot(), committed.shown())
    &&& freed == stage.freed
}

/// Everything that was staged is committed, and shown.
pub open spec fn flushed<F>(s: Store<F>, disk: Disk, vals: Map<u64, Seq<u8>>) -> bool {
    &&& serving(at_work(s.state(), s.shown(), disk, vals))
    &&& caught_up(s.state().layout)
    &&& s.shown() == s.state().snapshot()
    &&& fits(s.shown())
}

/// Compaction safety, as readers see it: a store that has everything committed
/// is compacted. Every key gives what it gave; so does every put that is not
/// dropped, and none that is. What is freed is the length of what is dropped,
/// as far as 64 bits go.
pub proof fn lemma_compact_commit_keeps_values<F>(
    s: Store<F>,
    planned: Store<F>,
    staged: Store<F>,
    committed: Store<F>,
    done: Store<F>,
    horizon: u64,
    plan: PlanModel<F>,
    stage: StageModel<F>,
    segments: Result<(), StoreError>,
    wal: Result<(), StoreError>,
    res: Result<(), StoreError>,
    freed: u64,
    disk: Disk,
    vals: Map<u64, Seq<u8>>,
    bytes: Seq<u8>,
)
    requires
        flushed(s, disk, vals),
        compacts(
            s,
            planned,
            staged,
            committed,
            done,
            horizon,
            plan,
            stage,
            segments,
            wal,
            res,
            freed,
        ),
        holds_copies(disk, plan, s.state().layout, bytes),
        s.state().next_free_id < u64::MAX,
        0 < s.state().wal.next_lsn,
        s.state().wal.next_lsn + plan.entries.len() + 1 < u64::MAX,
    ensures
        unchanged_but(s.shown(), disk, done.shown(), disk_done(disk, plan, bytes), plan.dropped),
        forall|lsn: u64|
            plan.dropped.contains(lsn) ==> (#[trigger] done.shown().read_put(lsn) == Err::<
                (F, u64, u32),
                ErrorModel,
            >(ErrorModel::Corrupt("no put at lsn "@ + digits(lsn as nat)))),
        freed == (if puts_len(s.state().layout, plan.dropped) <= u64::MAX {
            puts_len(s.state().layout, plan.dropped)
        } else {
            u64::MAX as nat
        }),
        done.state() == compaction_done(
            s.state(),
            plan,
            stage.records.last().0,
            stage.file,
        ),
{
    let before = s.state();
    let upto = stage.records.last().0;
    let records = compact_records(plan.old, plan.new, plan.entries);
    assert(staged.state() == compaction_logged(before, plan));
    assert(records.len() > 0);
    assert(staged.state().pending);
    let c = committed.state();
    lemma_compaction_logged(before, plan);
    lemma_compaction_is_safe(before, disk, vals, horizon, plan, stage.file, bytes, upto);
    let w0 = at_work(before, s.shown(), disk, vals);
    let start = Step::StartCompaction { horizon, plan, bytes };
    let w1 = Service {
        s: staged.state(),
        o: Some(replacement_of(plan)),
        gone: plan.dropped.to_set(),
        bytes,
        mark: (before.wal.next_lsn - 1) as u64,
        ..w0
    };
    assert(step_done(w0, start, w1));
    lemma_steps_are_shown(w0, start, w1);
    let commit = Step::Commit { upto, segments, wal, res };
    let w2 = Service { s: c, shown: committed.shown(), ..w1 };
    assert(step_done(w1, commit, w2));
    lemma_steps_are_shown(w1, commit, w2);
    assert(caught_up(c.layout)) by {
        assert forall|i: int| 0 <= i < c.layout.index.len() implies (
        #[trigger] c.layout.index[i]).1.lsn <= c.layout.committed_lsn by {
            assert(before.layout.index[i].1.lsn <= before.layout.committed_lsn);
        }
    }
    assert(!c.pending);
    let finish = Step::FinishCompaction { file: stage.file };
    let w3 = Service {
        s: done.state(),
        disk: disk_done(disk, plan, bytes),
        o: None,
        shown: done.shown(),
        ..w2
    };
    assert(step_done(w2, finish, w3));
    lemma_steps_are_shown(w2, finish, w3);
    lemma_same_totals(before, done.state(), disk, disk_done(disk, plan, bytes), vals);
    assert(done.shown() == done.state().snapshot());
}

/// Stores in order with everything committed and the same totals have totals
/// that fit, or not, alike.
proof fn lemma_same_totals<F>(
    s: State<F>,
    t: State<F>,
    disk: Disk,
    after: Disk,
    vals: Map<u64, Seq<u8>>,
)
    requires
        healthy(s, disk, vals),
        healthy(t, after, vals),
        caught_up(s.layout),
        caught_up(t.layout),
        s.layout.live == t.layout.live,
    ensures
        fits(s.snapshot()) == fits(t.snapshot()),
{
    lemma_all_visible(s.layout.index, s.layout.puts, s.layout.committed_lsn);
    lemma_all_visible(t.layout.index, t.layout.puts, t.layout.committed_lsn);
}

/// Compaction safety, as readers see it after a restart: `u` is the store that
/// is opened after the compaction. More may have been logged and written in
/// between, without another commit, and the log's end may be damaged.
pub proof fn lemma_compact_commit_survives_restart<F>(
    s: Store<F>,
    planned: Store<F>,
    staged: Store<F>,
    committed: Store<F>,
    done: Store<F>,
    horizon: u64,
    plan: PlanModel<F>,
    stage: StageModel<F>,
    segments: Result<(), StoreError>,
    wal: Result<(), StoreError>,
    res: Result<(), StoreError>,
    freed: u64,
    disk: Disk,
    vals: Map<u64, Seq<u8>>,
    bytes: Seq<u8>,
    later: Seq<Logged>,
    damaged: Seq<u8>,
    rest: Seq<u8>,
    after: Disk,
    floor: u64,
    u: Store<F>,
)
    requires
        flushed(s, disk, vals),
        compacts(
            s,
            planned,
            staged,
            committed,
            done,
            horizon,
            plan,
            stage,
            segments,
            wal,
            res,
            freed,
        ),
        holds_copies(disk, plan, s.state().layout, bytes),
        s.state().next_free_id < u64::MAX,
        0 < s.state().wal.next_lsn,
        s.state().wal.next_lsn + plan.entries.len() + 1 < u64::MAX,
        log_encodable(done.state().wal.durable + later),
        forall|i: int|
            0 <= i < later.len() ==> !((#[trigger] later[i]).1 is Commit) && later[i].0
                >= done.state().wal.next_lsn,
        survives(
            disk_done(disk, plan, bytes),
            after,
            committed_lengths(done.state().wal.durable),
        ),
        damaged.len() <= BLOCK_SIZE,
        damaged.len() == BLOCK_SIZE ==> logged_of(damaged) is None,
        damaged.len() < BLOCK_SIZE ==> rest.len() == 0,
        reopened(
            u.state(),
            log_bytes(done.state().wal.durable + later) + damaged + rest,
            floor,
        ),
        u.shown() == shows(u.state().snapshot(), blank()),
    ensures
        unchanged_but(
            s.shown(),
            disk,
            u.shown(),
            cut(after, committed_lengths(done.state().wal.durable)).restrict(
                disk_done(disk, plan, bytes).dom(),
            ),
            plan.dropped,
        ),
{
    lemma_compact_commit_keeps_values(
        s,
        planned,
        staged,
        committed,
        done,
        horizon,
        plan,
        stage,
        segments,
        wal,
        res,
        freed,
        disk,
        vals,
        bytes,
    );
    let upto = stage.records.last().0;
    lemma_compaction_survives_restart(
        s.state(),
        disk,
        vals,
        horizon,
        plan,
        stage.file,
        bytes,
        upto,
        later,
        damaged,
        rest,
        after,
        floor,
        u.state(),
    );
    let disk3 = cut(after, committed_lengths(done.state().wal.durable)).restrict(
        disk_done(disk, plan, bytes).dom(),
    );
    lemma_reopened_is_open(
        u.state(),
        log_bytes(done.state().wal.durable + later) + damaged + rest,
        floor,
    );
    lemma_opened_store_serves(u.state(), disk3, vals);
    lemma_same_totals(s.state(), u.state(), disk, disk3, vals);
}

/// Moving values changes no LSN of the index.
proof fn lemma_moved_lsns(l: Layout, es: Seq<EntryModel>, new: u64)
    ensures
        l.repoint_all(es, new).index.len() == l.index.len(),
        forall|i: int|
            0 <= i < l.index.len() ==> (#[trigger] l.repoint_all(es, new).index[i]).1.lsn
                == l.index[i].1.lsn,
    decreases es.len(),
{
    if es.len() > 0 {
        lemma_moved_lsns(l, es.drop_last(), new);
        lemma_slot(l.repoint_all(es.drop_last(), new).index, es.last().key);
    }
}

} // verus!
