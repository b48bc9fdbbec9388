//! What each step of a store changes, and what it leaves alone.

use vstd::prelude::*;

use crate::coverage::ends_within;
use crate::error::{ErrorModel, StoreError};
use crate::layout::{without, Location, PutModel};
use crate::rollup::byte_count;
use crate::replay::{lemma_push_contains, lemma_repoint_all_frame, lemma_without};
use crate::segment::apply::{applies, ApplyDone, IoKind};
use crate::segment::open::{attached, missing, next_after, target};
use crate::segment::{
    commits, finishes_swap, handle, stages, syncs, wal_syncs, SegmentIo, StagedPut,
};
use crate::state::{agg_record, put_record, Published, State};
use crate::table::{distinct, lemma_put, lookup};
use crate::wal::{encodable, logged_models, EntryModel, RecordModel, WalModel};

verus! {

/// Appending puts a record at the end of the log, where it waits for a sync.
/// The next LSN lies behind it, and is no further than it has to be.
pub proof fn lemma_append(w: WalModel, rec: RecordModel, lsn: u64)
    requires
        lsn < u64::MAX,
    ensures
        ({
            let w2 = w.appended(rec, lsn);
            &&& w2.log() == w.log().push((lsn, rec))
            &&& w2.durable == w.durable
            &&& w2.next_lsn > lsn
            &&& w2.next_lsn >= w.next_lsn
            &&& w2.next_lsn == lsn + 1 || w2.next_lsn == w.next_lsn
        }),
{
    assert(w.appended(rec, lsn).log() =~= w.log().push((lsn, rec)));
}

/// A sync makes the whole log durable, in its order, and changes nothing else.
pub proof fn lemma_log_sync(w: WalModel)
    ensures
        w.synced().durable == w.log(),
        w.synced().log() == w.log(),
        w.synced().buffered.len() == 0,
        w.synced().next_lsn == w.next_lsn,
{
    assert(w.synced().log() =~= w.log());
}

/// A file that is open stays the one that it is. One that was opened is that of
/// the active segment, if that had none; no other segment gets a file, and
/// nothing else changes.
pub proof fn lemma_open_files_stay<F>(s: State<F>, opened: Option<F>, id: u64)
    ensures
        ({
            let t = s.with_active(opened);
            &&& s.open.contains_key(id) ==> t.open.contains_key(id) && t.open[id] == s.open[id]
            &&& t.open.contains_key(id) && !s.open.contains_key(id) ==> id == s.layout.active_id
                && opened == Some(t.open[id])
            &&& opened is Some ==> t.open.contains_key(s.layout.active_id)
            &&& t == State { open: t.open, ..s }
        }),
{
}

/// A put that is staged is the newest of its key from then on, with the whole
/// length of its value, at the place that was given out for it. It is logged under
/// its own LSN, with its aggregates behind it. Other keys keep their values,
/// and nothing is committed by it.
pub proof fn lemma_staged_put<F>(
    before: State<F>,
    key: Seq<char>,
    value: Seq<u8>,
    io: SegmentIo<F>,
    after: State<F>,
    res: Result<StagedPut, StoreError>,
    other: Seq<char>,
)
    requires
        stages(before, key, value, io, after, res),
        res is Ok,
        before.has_room(value.len()),
        distinct(before.layout.index),
        distinct(before.layout.live),
    ensures
        value.len() <= u32::MAX,
        ({
            let id = res->Ok_0.object_id;
            let records = logged_models(res->Ok_0.records@);
            let (seg, offset) = before.place_for(value.len());
            let (l, l2) = (before.layout, after.layout);
            &&& id >= before.wal.next_lsn
            &&& l2.puts == l.puts.insert(
                id,
                PutModel { key, seg, offset, len: value.len() as u32 },
            )
            &&& lookup(l2.index, key) == Some(
                Location { seg, offset, len: value.len() as u32, lsn: id },
            )
            &&& lookup(l2.live, key) == Some(value.len() as u64)
            &&& other != key ==> lookup(l2.index, other) == lookup(l.index, other) && lookup(
                l2.live,
                other,
            ) == lookup(l.live, other)
            &&& l2.committed_lsn == l.committed_lsn
            &&& l2.last_commit_block == l.last_commit_block
            &&& l2.applied_upto == l.applied_upto
            &&& after.wal.durable == before.wal.durable
            &&& after.wal.log() == before.wal.log() + records
            &&& records.contains(
                (
                    id,
                    RecordModel::Put { key, len: value.len() as u32, stripe_id: id },
                ),
            )
            &&& records.contains(((id + 1) as u64, agg_record(key, value.len() as u32)))
            &&& after.wal.next_lsn == records.last().0 + 1
            &&& after.pending
            &&& after.dirty == before.dirty.insert(seg)
            &&& after.durable_commit == before.durable_commit
        }),
{
    let len = value.len() as u32;
    let free = before.before_put(value.len());
    let ready = free.with_active(handle(io.opened));
    let id = ready.wal.next_lsn;
    let records = logged_models(res->Ok_0.records@);
    let n = before.wal.buffered.len() as int;
    lemma_put(
        before.layout.index,
        key,
        Location { seg: free.layout.active_id, offset: free.layout.active_offset, len, lsn: id },
        other,
    );
    lemma_put(before.layout.live, key, len as u64, other);
    lemma_put(
        before.layout.index,
        key,
        Location { seg: free.layout.active_id, offset: free.layout.active_offset, len, lsn: id },
        key,
    );
    lemma_put(before.layout.live, key, len as u64, key);
    let put = ready.wal.appended(put_record(key, len, id), id);
    let both = put.appended(agg_record(key, len), (id + 1) as u64);
    let k = ready.wal.buffered.len() as int;
    assert(after.wal.buffered[k] == (id, put_record(key, len, id)));
    assert(after.wal.buffered[k + 1] == ((id + 1) as u64, agg_record(key, len)));
    assert(records[k - n] == (id, put_record(key, len, id)));
    assert(records[k + 1 - n] == ((id + 1) as u64, agg_record(key, len)));
    assert(after.wal.buffered.take(n) =~= before.wal.buffered);
    assert(after.wal.log() =~= before.wal.log() + records);
}

/// A put that fails leaves what is stored as it was; at most the active
/// segment was sealed for it. One whose value is too long does nothing. It fails
/// with the error of its file operations, if they failed, and otherwise because
/// it is too large, if its file is open.
pub proof fn lemma_failed_put<F>(
    before: State<F>,
    key: Seq<char>,
    value: Seq<u8>,
    io: SegmentIo<F>,
    after: State<F>,
    res: Result<StagedPut, StoreError>,
)
    requires
        stages(before, key, value, io, after, res),
        res is Err,
    ensures
        value.len() > u32::MAX ==> after == before && res->Err_0@ == ErrorModel::RecordTooLarge,
        value.len() <= u32::MAX ==> (io.result matches Err(e) ==> res->Err_0 == e),
        value.len() <= u32::MAX && io.result is Ok && io.opened is Some ==> res->Err_0@
            == ErrorModel::RecordTooLarge,
        after.layout.index == before.layout.index,
        after.layout.puts == before.layout.puts,
        after.layout.live == before.layout.live,
        after.layout.committed_lsn == before.layout.committed_lsn,
        after.layout.applied_upto == before.layout.applied_upto,
        after.wal.durable == before.wal.durable,
        after.dirty == before.dirty,
        after.durable_commit == before.durable_commit,
{
}

/// A put is not refused without a reason: it fails only if its value is too
/// long, its file could not be opened or written, or its records do not fit.
pub proof fn lemma_put_succeeds<F>(
    before: State<F>,
    key: Seq<char>,
    value: Seq<u8>,
    io: SegmentIo<F>,
    after: State<F>,
    res: Result<StagedPut, StoreError>,
)
    requires
        stages(before, key, value, io, after, res),
        value.len() <= u32::MAX,
        io.result is Ok,
        io.opened is Some,
        before.before_put(value.len()).put_fits(key, value.len() as u32),
    ensures
        res is Ok,
{
}

/// A commit that succeeds, while something waits for one, is the last record
/// of a log that is durable as a whole. Everything up to `upto` is committed
/// then, and all that was committed before stays so. Something still waits for
/// a commit exactly if the newest value of some key lies behind it. Nothing
/// that is stored changes.
pub proof fn lemma_commit<F>(
    before: State<F>,
    shown: Published<F>,
    upto: u64,
    segments: Result<(), StoreError>,
    wal: Result<(), StoreError>,
    after: State<F>,
    shown_after: Published<F>,
    res: Result<(), StoreError>,
)
    requires
        commits(before, shown, upto, segments, wal, after, shown_after, res),
        before.pending,
        res is Ok,
        before.wal.next_lsn < u64::MAX,
        before.layout.last_commit_block < before.wal.next_lsn,
        before.layout.applied_upto < before.wal.next_lsn,
    ensures
        segments is Ok,
        wal is Ok,
        after.wal.buffered.len() == 0,
        after.wal.durable == before.wal.log().push(
            (before.wal.next_lsn, RecordModel::Commit { lsn: upto }),
        ),
        after.wal.next_lsn == before.wal.next_lsn + 1,
        after.layout.committed_lsn >= upto,
        after.layout.committed_lsn >= before.layout.committed_lsn,
        after.layout.committed_lsn == upto || after.layout.committed_lsn
            == before.layout.committed_lsn,
        after.layout.last_commit_block == before.wal.next_lsn,
        after.layout.applied_upto == before.wal.next_lsn,
        after.durable_commit == before.wal.next_lsn,
        after.dirty.is_empty(),
        after.pending <==> exists|i: int|
            0 <= i < after.layout.index.len() && (#[trigger] after.layout.index[i]).1.lsn
                > after.layout.committed_lsn,
        after.layout.index == before.layout.index,
        after.layout.puts == before.layout.puts,
        after.layout.live == before.layout.live,
        after.layout.sealed == before.layout.sealed,
        after.layout.active_id == before.layout.active_id,
        after.layout.active_offset == before.layout.active_offset,
        after.open == before.open,
        after.swap == before.swap,
{
    assert(after.wal.durable =~= before.wal.log().push(
        (before.wal.next_lsn, RecordModel::Commit { lsn: upto }),
    ));
}

/// A flush leaves nothing waiting: it commits everything that is in the log.
pub proof fn lemma_flush<F>(
    before: State<F>,
    shown: Published<F>,
    segments: Result<(), StoreError>,
    wal: Result<(), StoreError>,
    after: State<F>,
    shown_after: Published<F>,
    res: Result<(), StoreError>,
)
    requires
        commits(before, shown, before.last_lsn(), segments, wal, after, shown_after, res),
        before.pending,
        res is Ok,
        0 < before.wal.next_lsn < u64::MAX,
        forall|i: int|
            0 <= i < before.layout.index.len() ==> (#[trigger] before.layout.index[i]).1.lsn
                < before.wal.next_lsn,
    ensures
        !after.pending,
        after.layout.committed_lsn >= before.wal.next_lsn - 1,
        forall|i: int|
            0 <= i < after.layout.index.len() ==> (#[trigger] after.layout.index[i]).1.lsn
                <= after.layout.committed_lsn,
{
    assert forall|i: int| 0 <= i < after.layout.index.len() implies (
    #[trigger] after.layout.index[i]).1.lsn <= after.layout.committed_lsn by {
        assert(before.layout.index[i].1.lsn < before.wal.next_lsn);
    }
}

/// A sync of the log alone makes the log durable, with the last commit in it.
/// It says nothing of the segments. One that fails changes nothing.
pub proof fn lemma_log_alone_sync<F>(
    before: State<F>,
    written: Result<(), StoreError>,
    after: State<F>,
    res: Result<(), StoreError>,
)
    requires
        wal_syncs(before, written, after, res),
        before.wal.buffered.len() > 0,
    ensures
        res is Ok <==> written is Ok,
        res is Err ==> after == before,
        res is Ok ==> {
            &&& after.wal.durable == before.wal.log()
            &&& after.wal.buffered.len() == 0
            &&& after.wal.next_lsn == before.wal.next_lsn
            &&& after.durable_commit == before.layout.last_commit_block
            &&& after.dirty == before.dirty
            &&& after.layout == before.layout
            &&& after.pending == before.pending
        },
{
}

/// A replacement that is completed has its new segment in the place of the old
/// one, under its own file, and waits no more. One whose file cannot be opened
/// is given up, with everything stored as it was.
pub proof fn lemma_swap_completes<F>(
    before: State<F>,
    reopened: Result<F, StoreError>,
    after: State<F>,
    res: Result<(), StoreError>,
    id: u64,
)
    requires
        finishes_swap(before, reopened, after, res),
    ensures
        after.swap is None,
        before.swap is None ==> res is Ok && after == before,
        before.swap is Some ==> (res is Ok <==> reopened is Ok),
        res is Err ==> after.layout == before.layout && after.open == before.open,
        before.swap matches Some(w) ==> (reopened matches Ok(file) ==> {
            &&& after.open.contains_key(w.new) && after.open[w.new] == file
            &&& w.old != w.new ==> !after.open.contains_key(w.old)
            &&& after.layout.sealed.contains(w.new)
            &&& w.old != w.new ==> !after.layout.sealed.contains(w.old)
            &&& id != w.old && id != w.new ==> (after.layout.sealed.contains(id)
                <==> before.layout.sealed.contains(id))
            &&& after.layout.committed_lsn == before.layout.committed_lsn
            &&& after.wal == before.wal
        }),
{
    if let Some(w) = before.swap {
        if reopened is Ok {
            lemma_repoint_all_frame(before.layout, w.entries, w.new);
            let kept = without(before.layout.sealed, w.old);
            lemma_without(before.layout.sealed, w.old, w.old);
            lemma_without(before.layout.sealed, w.old, id);
            lemma_push_contains(kept, w.new, w.new);
            lemma_push_contains(kept, w.new, w.old);
            lemma_push_contains(kept, w.new, id);
        }
    }
}

/// A commit that fails, with the error of the first fsync that failed, commits
/// nothing, makes nothing durable, shows nothing new, and leaves what waits
/// waiting. A commit while nothing waits does nothing.
pub proof fn lemma_failed_commit<F>(
    before: State<F>,
    shown: Published<F>,
    upto: u64,
    segments: Result<(), StoreError>,
    wal: Result<(), StoreError>,
    after: State<F>,
    shown_after: Published<F>,
    res: Result<(), StoreError>,
)
    requires
        commits(before, shown, upto, segments, wal, after, shown_after, res),
    ensures
        !before.pending ==> res is Ok && after == before && shown_after == shown,
        before.pending && segments is Err ==> res == segments,
        before.pending && segments is Ok && wal is Err ==> res == wal,
        segments is Ok && wal is Ok ==> res is Ok,
        res is Err ==> {
            &&& after.layout == before.layout
            &&& after.wal.durable == before.wal.durable
            &&& after.durable_commit == before.durable_commit
            &&& after.dirty == before.dirty
            &&& after.pending
            &&& shown_after == shown
        },
{
}

/// A sync that succeeds makes everything durable that was applied, and changes
/// nothing of it. One that fails changes nothing.
pub proof fn lemma_sync<F>(
    before: State<F>,
    shown: Published<F>,
    segments: Result<(), StoreError>,
    wal: Result<(), StoreError>,
    after: State<F>,
    shown_after: Published<F>,
    res: Result<(), StoreError>,
)
    requires
        syncs(before, shown, segments, wal, after, shown_after, res),
    ensures
        segments is Err ==> res == segments,
        segments is Ok && before.wal.buffered.len() > 0 && wal is Err ==> res == wal,
        segments is Ok && wal is Ok ==> res is Ok,
        segments is Ok && before.wal.buffered.len() == 0 ==> res is Ok,
        res is Err ==> after == before && shown_after == shown,
        res is Ok ==> {
            &&& after.wal.durable == before.wal.log()
            &&& after.wal.buffered.len() == 0
            &&& after.wal.next_lsn == before.wal.next_lsn
            &&& after.dirty.is_empty()
            &&& after.durable_commit == before.layout.last_commit_block
            &&& after.layout == before.layout
            &&& after.open == before.open
            &&& after.swap == before.swap
        },
{
    if res is Ok {
        assert(after.wal.durable =~= before.wal.log());
    }
}

/// A record of the leader that a follower refuses does not count as applied,
/// and changes nothing of what is stored or committed.
pub proof fn lemma_refused_record<F>(
    before: State<F>,
    lsn: u64,
    rec: RecordModel,
    data: Option<Seq<u8>>,
    io: ApplyDone<F>,
    after: State<F>,
    res: Result<(), StoreError>,
)
    requires
        applies(before, lsn, rec, data, io, after, res),
        res is Err,
    ensures
        after.layout == before.layout,
        after.durable_commit == before.durable_commit,
        after.wal.durable == before.wal.durable,
        after.pending == before.pending,
        after.dirty == before.dirty,
{
}

/// A record that a follower applies goes to the end of its log, at the leader's
/// LSN, and counts as applied. It is taken for committed only when the leader
/// says so.
pub proof fn lemma_applied_record<F>(
    before: State<F>,
    lsn: u64,
    rec: RecordModel,
    data: Option<Seq<u8>>,
    io: ApplyDone<F>,
    after: State<F>,
    res: Result<(), StoreError>,
)
    requires
        applies(before, lsn, rec, data, io, after, res),
        res is Ok,
    ensures
        after.wal.log() == before.wal.log().push((lsn, rec)),
        after.wal.durable == before.wal.durable,
        after.durable_commit == before.durable_commit,
        after.layout.applied_upto >= lsn,
        after.layout.applied_upto >= before.layout.applied_upto,
        after.layout.applied_upto == lsn || after.layout.applied_upto
            == before.layout.applied_upto,
        after.pending,
        match rec {
            RecordModel::Commit { lsn: upto } => {
                &&& after.layout.committed_lsn >= upto
                &&& after.layout.committed_lsn >= before.layout.committed_lsn
                &&& after.layout.committed_lsn == upto || after.layout.committed_lsn
                    == before.layout.committed_lsn
                &&& after.layout.last_commit_block >= lsn
            },
            _ => after.layout.committed_lsn == before.layout.committed_lsn
                && after.layout.last_commit_block == before.layout.last_commit_block,
        },
        !(rec is Put) ==> after.layout.index == before.layout.index && after.layout.puts
            == before.layout.puts,
{
    assert(after.wal.log() =~= before.wal.log().push((lsn, rec)));
}

/// A follower does not take a put without its value, or with one of another
/// length. One with its value is where the leader put it, behind what the
/// active segment holds, with the leader's LSN.
pub proof fn lemma_applied_put<F>(
    before: State<F>,
    lsn: u64,
    key: Seq<char>,
    len: u32,
    stripe_id: u64,
    data: Option<Seq<u8>>,
    io: ApplyDone<F>,
    after: State<F>,
    res: Result<(), StoreError>,
    other: Seq<char>,
)
    requires
        applies(before, lsn, RecordModel::Put { key, len, stripe_id }, data, io, after, res),
        before.layout.active_offset + len <= u64::MAX,
        distinct(before.layout.index),
        distinct(before.layout.live),
    ensures
        res is Ok ==> data is Some && data->0.len() == len,
        !(data is Some && data->0.len() == len) ==> after == before,
        res is Ok ==> {
            let (l, l2) = (before.layout, after.layout);
            let (seg, offset) = before.place_for_applied();
            &&& l2.puts == l.puts.insert(lsn, PutModel { key, seg, offset, len })
            &&& lookup(l2.index, key) == Some(Location { seg, offset, len, lsn })
            &&& lookup(l2.live, key) == Some(len as u64)
            &&& other != key ==> lookup(l2.index, other) == lookup(l.index, other)
            &&& l2.active_id == seg
            &&& l2.active_offset == offset + len
            &&& l2.sealed == l.sealed
            &&& after.dirty == before.dirty.insert(seg)
        },
{
    let l = before.layout;
    let at = Location { seg: l.active_id, offset: l.active_offset, len, lsn };
    lemma_put(l.index, key, at, other);
    lemma_put(l.index, key, at, key);
    lemma_put(l.live, key, len as u64, key);
}

/// A follower touches its files only for records that it may take: it writes a
/// value only if that is as long as its put says, starts a segment only while no
/// replacement waits, and copies only into the replacement that waits. Commits,
/// seals and aggregates touch no file.
pub proof fn lemma_file_operations<F>(s: State<F>, rec: RecordModel, data: Option<Seq<u8>>)
    ensures
        rec matches RecordModel::Put { len, .. } ==> if data is Some && data->0.len() == len {
            s.io_kind(rec, data) is Write
        } else {
            s.io_kind(rec, data) is Nothing
        },
        rec is SegmentSwap ==> if s.swap is None {
            s.io_kind(rec, data) is Create
        } else {
            s.io_kind(rec, data) is Nothing
        },
        rec matches RecordModel::SegmentRemap { new_segment_id, entries } ==> match s.io_kind(
            rec,
            data,
        ) {
            IoKind::Copy(n) => s.swap matches Some(w) && w.new == new_segment_id && n
                <= entries.len() && (n == entries.len() || s.move_error(w.old, entries[n as int])
                is Some),
            IoKind::Nothing => s.swap matches Some(w) ==> w.new != new_segment_id || !encodable(
                rec,
            ),
            _ => false,
        },
        rec is Commit || rec is SegmentSeal || rec is AggDelta ==> s.io_kind(rec, data) is Nothing,
{
    if let RecordModel::SegmentRemap { new_segment_id, entries } = rec {
        if let Some(w) = s.swap {
            lemma_movable_bound(s, w.old, entries);
            lemma_movable_stops(s, w.old, entries);
        }
    }
}

proof fn lemma_movable_stops<F>(s: State<F>, old: u64, es: Seq<EntryModel>)
    ensures
        s.movable(old, es) < es.len() ==> s.move_error(old, es[s.movable(old, es) as int]) is Some,
    decreases es.len(),
{
    if es.len() > 0 {
        let front = es.drop_last();
        lemma_movable_bound(s, old, front);
        lemma_movable_stops(s, old, front);
        if s.movable(old, front) < front.len() {
            assert(front[s.movable(old, front) as int] == es[s.movable(old, front) as int]);
        } else {
            assert(es[es.len() - 1] == es.last());
        }
    }
}

/// A follower takes a put that comes with as many bytes as its record says, if
/// they can be written and the record fits in a block.
pub proof fn lemma_put_with_its_value_is_taken<F>(
    before: State<F>,
    lsn: u64,
    key: Seq<char>,
    value: Seq<u8>,
    stripe_id: u64,
    io: ApplyDone<F>,
    after: State<F>,
    res: Result<(), StoreError>,
)
    requires
        value.len() <= u32::MAX,
        applies(
            before,
            lsn,
            RecordModel::Put { key, len: value.len() as u32, stripe_id },
            Some(value),
            io,
            after,
            res,
        ),
        io is Wrote,
        io->Wrote_0.result is Ok,
        io->Wrote_0.opened is Some,
        encodable(RecordModel::Put { key, len: value.len() as u32, stripe_id }),
    ensures
        res is Ok,
        after.layout.puts.contains_key(lsn),
        after.layout.puts[lsn].key == key,
        after.layout.puts[lsn].len == value.len(),
{
}

/// A follower seals the segment that the leader names only if it is the one that
/// it writes to itself. The next one, which the leader names too, starts empty,
/// and no new segment of its own will have that number.
pub proof fn lemma_applied_seal<F>(
    before: State<F>,
    lsn: u64,
    segment_id: u64,
    next_segment_id: u64,
    data: Option<Seq<u8>>,
    io: ApplyDone<F>,
    after: State<F>,
    res: Result<(), StoreError>,
)
    requires
        applies(
            before,
            lsn,
            RecordModel::SegmentSeal { segment_id, next_segment_id },
            data,
            io,
            after,
            res,
        ),
        next_segment_id < u64::MAX,
    ensures
        res is Ok <==> segment_id == before.layout.active_id,
        res is Err ==> after == before,
        res is Ok ==> {
            &&& after.layout.sealed == before.layout.sealed.push(segment_id)
            &&& after.layout.active_id == next_segment_id
            &&& after.layout.active_offset == 0
            &&& after.next_free_id > next_segment_id
            &&& after.next_free_id >= before.next_free_id
        },
{
}

/// A follower starts a replacement only while none waits, under the numbers
/// that the leader gives, with nothing moved yet.
pub proof fn lemma_applied_swap<F>(
    before: State<F>,
    lsn: u64,
    old_segment_id: u64,
    new_segment_id: u64,
    data: Option<Seq<u8>>,
    io: ApplyDone<F>,
    after: State<F>,
    res: Result<(), StoreError>,
)
    requires
        applies(
            before,
            lsn,
            RecordModel::SegmentSwap { old_segment_id, new_segment_id },
            data,
            io,
            after,
            res,
        ),
    ensures
        before.swap is Some ==> res is Err,
        res is Err ==> after == before,
        res is Ok ==> (after.swap matches Some(w) && w.old == old_segment_id && w.new
            == new_segment_id && w.entries.len() == 0),
        res is Ok ==> after.layout.sealed == before.layout.sealed,
{
}

proof fn lemma_movable_bound<F>(s: State<F>, old: u64, es: Seq<EntryModel>)
    ensures
        s.movable(old, es) <= es.len(),
    decreases es.len(),
{
    if es.len() > 0 {
        lemma_movable_bound(s, old, es.drop_last());
    }
}

proof fn lemma_movable_entries<F>(s: State<F>, old: u64, es: Seq<EntryModel>, i: int)
    requires
        s.movable(old, es) == es.len(),
        0 <= i < es.len(),
    ensures
        s.move_error(old, es[i]) is None,
    decreases es.len(),
{
    lemma_movable_bound(s, old, es.drop_last());
    if i < es.len() - 1 {
        lemma_movable_entries(s, old, es.drop_last(), i);
        assert(es.drop_last()[i] == es[i]);
    }
}

/// A follower moves a value only if it has it, with the length that the leader
/// gives, in the segment that is being replaced. What it moves is added to what
/// the replacement has moved before, in order, and takes effect only when the
/// replacement is completed.
pub proof fn lemma_applied_remap<F>(
    before: State<F>,
    lsn: u64,
    new_segment_id: u64,
    entries: Seq<EntryModel>,
    data: Option<Seq<u8>>,
    io: ApplyDone<F>,
    after: State<F>,
    res: Result<(), StoreError>,
    i: int,
)
    requires
        applies(
            before,
            lsn,
            RecordModel::SegmentRemap { new_segment_id, entries },
            data,
            io,
            after,
            res,
        ),
        res is Ok,
        0 <= i < entries.len(),
    ensures
        before.swap matches Some(w) && w.new == new_segment_id && {
            &&& before.layout.puts.contains_key(entries[i].lsn)
            &&& before.layout.puts[entries[i].lsn].seg == w.old
            &&& before.layout.puts[entries[i].lsn].len == entries[i].len
            &&& before.open.contains_key(w.old)
            &&& after.swap matches Some(w2) && w2.old == w.old && w2.new == w.new && w2.entries
                == w.entries + entries
        },
{
    if let Some(w) = before.swap {
        lemma_movable_entries(before, w.old, entries, i);
    }
}

/// A store of ordinary size has room for a put, and a follower of ordinary size
/// can apply what its leader sends.
pub proof fn lemma_ordinary_store_has_room<F>(s: State<F>, len: u32, lsn: u64, rec: RecordModel)
    requires
        s.layout.active_offset < 0x4000_0000_0000_0000,
        s.wal.next_lsn < 0x4000_0000_0000_0000,
        s.next_free_id < 0x4000_0000_0000_0000,
        s.layout.live.len() < 0x4000_0000_0000_0000,
        byte_count(s.layout.live, Seq::empty()) < 0x4000_0000_0000_0000,
        lsn < 0x4000_0000_0000_0000,
        rec matches RecordModel::SegmentSeal { next_segment_id, .. } ==> next_segment_id
            < 0x4000_0000_0000_0000,
    ensures
        s.has_room(len as nat),
        s.can_apply(lsn, rec),
{
}

/// Files that pass the check hold every value that the log speaks of: no value
/// with bytes in it is in a segment without a file, or behind the end of one.
pub proof fn lemma_checked_files_hold_values(
    lengths: Map<u64, u64>,
    existing: Seq<(u64, u64)>,
    p: PutModel,
)
    requires
        forall|id: u64| !#[trigger] missing(lengths, existing, id),
        forall|i: int|
            0 <= i < existing.len() ==> (#[trigger] existing[i]).1 >= target(
                lengths,
                existing[i].0,
            ),
        ends_within(lengths, p),
        p.len > 0,
    ensures
        exists|i: int|
            0 <= i < existing.len() && (#[trigger] existing[i]).0 == p.seg && p.offset + p.len
                <= existing[i].1,
        p.offset + p.len <= target(lengths, p.seg),
{
    assert(!missing(lengths, existing, p.seg));
    let i = choose|i: int| 0 <= i < existing.len() && (#[trigger] existing[i]).0 == p.seg;
    assert(existing[i].1 >= target(lengths, existing[i].0));
}

/// The number of the next new segment is that of no segment and of no file, and
/// follows the largest of those.
pub proof fn lemma_next_number_is_free(
    n: u64,
    known: Set<u64>,
    existing: Seq<(u64, u64)>,
    active: u64,
)
    requires
        next_after(n, known, existing, active),
    ensures
        !known.contains(n),
        n > active,
        forall|id: u64| #[trigger] known.contains(id) ==> id < n,
        forall|i: int| 0 <= i < existing.len() ==> (#[trigger] existing[i]).0 < n,
        active == n - 1 || known.contains((n - 1) as u64) || exists|i: int|
            0 <= i < existing.len() && (#[trigger] existing[i]).0 == n - 1,
{
}

/// The files that complete an opening are those of the segments that they were
/// opened for.
pub proof fn lemma_attached_files<F>(open: Map<u64, F>, files: Seq<(u64, F)>, i: int, id: u64)
    requires
        0 <= i < files.len(),
        forall|a: int, b: int|
            0 <= a < b < files.len() ==> (#[trigger] files[a]).0 != (#[trigger] files[b]).0,
    ensures
        attached(open, files).contains_key(files[i].0),
        attached(open, files)[files[i].0] == files[i].1,
        (forall|a: int| 0 <= a < files.len() ==> (#[trigger] files[a]).0 != id) ==> (attached(
            open,
            files,
        ).contains_key(id) <==> open.contains_key(id)) && attached(open, files)[id] == open[id],
    decreases files.len(),
{
    let front = files.drop_last();
    assert(files[files.len() - 1] == files.last());
    if i < files.len() - 1 {
        assert forall|a: int, b: int| 0 <= a < b < front.len() implies (#[trigger] front[a]).0 != (
        #[trigger] front[b]).0 by {
            assert(files[a].0 != files[b].0);
        }
        lemma_attached_files(open, front, i, id);
        assert(front[i] == files[i]);
    } else {
        lemma_attached_elsewhere(open, front, id);
    }
    if forall|a: int| 0 <= a < files.len() ==> (#[trigger] files[a]).0 != id {
        assert forall|a: int| 0 <= a < front.len() implies (#[trigger] front[a]).0 != id by {
            assert(files[a].0 != id);
        }
        lemma_attached_elsewhere(open, front, id);
    }
}

proof fn lemma_attached_elsewhere<F>(open: Map<u64, F>, files: Seq<(u64, F)>, id: u64)
    ensures
        (forall|a: int| 0 <= a < files.len() ==> (#[trigger] files[a]).0 != id) ==> (attached(
            open,
            files,
        ).contains_key(id) <==> open.contains_key(id)) && attached(open, files)[id] == open[id],
    decreases files.len(),
{
    if files.len() > 0 {
        let front = files.drop_last();
        lemma_attached_elsewhere(open, front, id);
        if forall|a: int| 0 <= a < files.len() ==> (#[trigger] files[a]).0 != id {
            assert forall|a: int| 0 <= a < front.len() implies (#[trigger] front[a]).0 != id by {
                assert(files[a].0 != id);
            }
            assert(files[files.len() - 1].0 != id);
        }
    }
}

} // verus!
