//! What a recovery makes of a log: where the log is cut, where its LSNs go on,
//! which marks it leaves, and which files go.

use vstd::prelude::*;

use crate::block::BLOCK_SIZE;
use crate::layout::{
    committed_lengths, entries_end, moved, played, played_lengths, recovered, replaced,
    replaced_lengths, swaps, Layout,
};
use crate::replay::lemma_repoint_all_frame;
use crate::segment::open::{opened_state, retired, target};
use crate::wal::{
    committed_len, committed_part, cut_len, lemma_committed_len, mark_after, scan_of,
    EntryModel, Logged, RecordModel,
};

verus! {

proof fn lemma_scan_of_front(file: Seq<u8>, n: nat)
    requires
        n <= scan_of(file).len(),
    ensures
        n * BLOCK_SIZE <= file.len(),
        scan_of(file.take((n * BLOCK_SIZE) as int)) == scan_of(file).take(n as int),
    decreases file.len(),
{
    let front = file.take((n * BLOCK_SIZE) as int);
    let b = BLOCK_SIZE as int;
    if n == 0 {
        assert(scan_of(front) =~= scan_of(file).take(0));
    } else {
        let rest = file.skip(b);
        lemma_scan_of_front(rest, (n - 1) as nat);
        assert(scan_of(file).skip(1) =~= scan_of(rest));
        assert(front.take(b) =~= file.take(b));
        assert(front.skip(b) =~= rest.take(((n - 1) as nat * BLOCK_SIZE) as int));
        assert(scan_of(front) =~= scan_of(file).take(n as int));
    }
}

/// Recovery cuts the log file behind its last commit: what is left of the file
/// reads as just the committed records, and nothing behind it is a commit.
pub proof fn lemma_cut_keeps_what_is_committed(file: Seq<u8>)
    ensures
        cut_len(file) <= file.len(),
        scan_of(file.take(cut_len(file) as int)) == committed_part(scan_of(file)),
        cut_len(file) == 0 || scan_of(file.take(cut_len(file) as int)).last().1 is Commit,
        forall|i: int|
            scan_of(file.take(cut_len(file) as int)).len() <= i < scan_of(file).len() ==> !((
            #[trigger] scan_of(file)[i]).1 is Commit),
{
    let log = scan_of(file);
    lemma_committed_len(log);
    lemma_scan_of_front(file, committed_len(log));
}

/// LSNs go on behind everything that the log knows of: its last record, what its
/// last commit names, and the mark of the recovery before. They skip none.
pub proof fn lemma_lsns_go_on(log: Seq<Logged>, floor: u64, i: int)
    requires
        0 <= i < log.len(),
        log[i].1 is Commit,
        forall|j: int| i < j < log.len() ==> !((#[trigger] log[j]).1 is Commit),
    ensures
        ({
            let mark = mark_after(log, floor);
            &&& mark >= floor
            &&& mark >= log.last().0
            &&& mark >= log[i].1->Commit_lsn
            &&& mark == floor || mark == log.last().0 || mark == log[i].1->Commit_lsn
        }),
        mark_after(Seq::empty(), floor) == floor,
{
    lemma_committed_len(log);
    let n = committed_len(log);
    if n - 1 < i {
        assert(!(log[i].1 is Commit));
    }
    if i < n - 1 {
        assert(log[n - 1].1 is Commit);
    }
}

/// The mark that an opening leaves for the next one is that of its recovery: it
/// lies behind every LSN that the log knows of, kept or cut off, and the next
/// LSN follows it.
pub proof fn lemma_opening_leaves_its_mark<F>(file: Seq<u8>, max: u64, floor: u64)
    requires
        mark_after(scan_of(file), floor) < u64::MAX,
    ensures
        ({
            let s = opened_state::<F>(file, max, floor);
            &&& s.last_lsn() == mark_after(scan_of(file), floor)
            &&& s.wal.next_lsn == s.last_lsn() + 1
        }),
{
}

/// The marks of a layout: what is committed, the block of the last commit, and
/// what was applied.
pub open spec fn marks(l: Layout) -> (u64, u64, u64) {
    (l.committed_lsn, l.last_commit_block, l.applied_upto)
}

proof fn lemma_replaced_marks(l: Layout, log: Seq<Logged>, pairs: Seq<(u64, u64)>)
    ensures
        marks(replaced(l, log, pairs)) == marks(l),
    decreases pairs.len(),
{
    if pairs.len() > 0 {
        let front = pairs.drop_last();
        let new = pairs.last().1;
        lemma_replaced_marks(l, log, front);
        lemma_repoint_all_frame(replaced(l, log, front), moved(log, new), new);
    }
}

proof fn lemma_played_marks(log: Seq<Logged>, i: int)
    requires
        0 <= i < log.len(),
    ensures
        played(log).applied_upto >= log[i].0,
        log[i].1 matches RecordModel::Commit { lsn } ==> played(log).committed_lsn >= lsn
            && played(log).last_commit_block >= log[i].0,
    decreases log.len(),
{
    if i < log.len() - 1 {
        lemma_played_marks(log.drop_last(), i);
        assert(log.drop_last()[i] == log[i]);
    }
}

/// `log` has a commit in its block `block`, of everything up to `upto`.
pub open spec fn has_commit(log: Seq<Logged>, block: u64, upto: u64) -> bool {
    log.contains((block, RecordModel::Commit { lsn: upto }))
}

proof fn lemma_marks_are_in_log(log: Seq<Logged>)
    ensures
        played(log).committed_lsn == 0 || exists|block: u64|
            #[trigger] has_commit(log, block, played(log).committed_lsn),
        played(log).last_commit_block == 0 || exists|upto: u64|
            #[trigger] has_commit(log, played(log).last_commit_block, upto),
        played(log).applied_upto == 0 || exists|i: int|
            0 <= i < log.len() && (#[trigger] log[i]).0 == played(log).applied_upto,
    decreases log.len(),
{
    if log.len() > 0 {
        let front = log.drop_last();
        let n = log.len() - 1;
        lemma_marks_are_in_log(front);
        let (p, q) = (played(front), played(log));
        assert forall|block: u64, upto: u64|
            has_commit(front, block, upto) implies #[trigger] has_commit(log, block, upto) by {
            let l = (block, RecordModel::Commit { lsn: upto });
            let k = choose|k: int| 0 <= k < front.len() && front[k] == l;
            assert(log[k] == l);
        }
        if let RecordModel::Commit { lsn } = log.last().1 {
            assert(log[n] == (log.last().0, RecordModel::Commit { lsn }));
            assert(has_commit(log, log.last().0, lsn));
        }
        if q.committed_lsn == p.committed_lsn && p.committed_lsn != 0 {
            let block = choose|block: u64| #[trigger] has_commit(front, block, p.committed_lsn);
            assert(has_commit(log, block, q.committed_lsn));
        }
        if q.last_commit_block == p.last_commit_block && p.last_commit_block != 0 {
            let upto = choose|upto: u64| #[trigger] has_commit(front, p.last_commit_block, upto);
            assert(has_commit(log, q.last_commit_block, upto));
        }
        if q.applied_upto == p.applied_upto && p.applied_upto != 0 {
            let k = choose|k: int|
                0 <= k < front.len() && (#[trigger] front[k]).0 == p.applied_upto;
            assert(log[k].0 == q.applied_upto);
        } else {
            assert(log[n].0 == log.last().0);
        }
    }
}

/// A store that was opened has the marks of its log: it takes for committed what
/// the furthest of the log's commits names, asks a leader for what lies behind
/// the block of the last one, and counts every record as applied. The log is
/// durable as it is.
pub proof fn lemma_opened_marks<F>(file: Seq<u8>, max: u64, floor: u64, i: int)
    requires
        0 <= i < committed_part(scan_of(file)).len(),
    ensures
        ({
            let log = committed_part(scan_of(file));
            let s = opened_state::<F>(file, max, floor);
            &&& s.wal.durable == log
            &&& s.wal.buffered.len() == 0
            &&& s.max == max
            &&& s.layout.applied_upto >= log[i].0
            &&& log[i].1 matches RecordModel::Commit { lsn } ==> s.layout.committed_lsn >= lsn
                && s.layout.last_commit_block >= log[i].0 && s.durable_commit >= log[i].0
            &&& s.layout.committed_lsn == 0 || exists|block: u64|
                #[trigger] has_commit(log, block, s.layout.committed_lsn)
            &&& s.durable_commit == 0 || exists|upto: u64|
                #[trigger] has_commit(log, s.durable_commit, upto)
            &&& s.layout.applied_upto == 0 || exists|k: int|
                0 <= k < log.len() && (#[trigger] log[k]).0 == s.layout.applied_upto
        }),
{
    let log = committed_part(scan_of(file));
    lemma_played_marks(log, i);
    lemma_marks_are_in_log(log);
    lemma_replaced_marks(played(log), log, swaps(log));
    assert(marks(recovered(log)) == marks(played(log)));
}

/// The files that go at an opening are those of the segments that the log says
/// were replaced, and no others.
pub proof fn lemma_replaced_files_go(log: Seq<Logged>, id: u64)
    ensures
        retired(swaps(log)).contains(id) <==> exists|i: int|
            0 <= i < log.len() && (#[trigger] log[i]).1 is SegmentSwap
                && log[i].1->SegmentSwap_old_segment_id == id,
    decreases log.len(),
{
    if log.len() > 0 {
        let front = log.drop_last();
        let n = log.len() - 1;
        lemma_replaced_files_go(front, id);
        let (a, b) = (retired(swaps(front)), retired(swaps(log)));
        if a.contains(id) {
            let i = choose|i: int|
                0 <= i < front.len() && (#[trigger] front[i]).1 is SegmentSwap
                    && front[i].1->SegmentSwap_old_segment_id == id;
            assert(log[i] == front[i]);
            let k = choose|k: int| 0 <= k < a.len() && a[k] == id;
            assert(b[k] == id);
        }
        if log.last().1 is SegmentSwap {
            assert(b[a.len() as int] == log.last().1->SegmentSwap_old_segment_id);
            assert(b =~= a.push(log.last().1->SegmentSwap_old_segment_id));
            assert(log[n] == log.last());
        }
        if b.contains(id) && !a.contains(id) {
            let k = choose|k: int| 0 <= k < b.len() && b[k] == id;
            if k < a.len() {
                assert(a[k] == id);
            }
            assert(log[n].1 is SegmentSwap);
        }
        if exists|i: int|
            0 <= i < log.len() && (#[trigger] log[i]).1 is SegmentSwap
                && log[i].1->SegmentSwap_old_segment_id == id {
            let i = choose|i: int|
                0 <= i < log.len() && (#[trigger] log[i]).1 is SegmentSwap
                    && log[i].1->SegmentSwap_old_segment_id == id;
            if i < n {
                assert(front[i] == log[i]);
            }
        }
    }
}

/// `log` has a put whose value ends at `n` in segment `id`, where the log has
/// come to when it is put.
pub open spec fn wrote_upto(log: Seq<Logged>, id: u64, n: u64) -> bool {
    exists|i: int|
        {
            &&& 0 <= i < log.len()
            &&& (#[trigger] log[i]).1 is Put
            &&& played(log.take(i)).active_id == id
            &&& n == (played(log.take(i)).active_offset + log[i].1->Put_len) as u64
        }
}

/// `log` has a value that was moved to segment `id` and ends at `n` there.
pub open spec fn moved_upto(log: Seq<Logged>, id: u64, n: u64) -> bool {
    exists|k: int|
        0 <= k < moved(log, id).len() && n == ((#[trigger] moved(log, id)[k]).offset + moved(
            log,
            id,
        )[k].len) as u64
}

/// Every seal in `log` is of the segment that is written to at the time.
pub open spec fn seals_active(log: Seq<Logged>) -> bool {
    forall|i: int|
        0 <= i < log.len() && (#[trigger] log[i]).1 is SegmentSeal
            ==> log[i].1->SegmentSeal_segment_id == played(log.take(i)).active_id
}

proof fn lemma_wrote_more(log: Seq<Logged>, id: u64, n: u64)
    requires
        log.len() > 0,
        wrote_upto(log.drop_last(), id, n),
    ensures
        wrote_upto(log, id, n),
{
    let front = log.drop_last();
    let i = choose|i: int|
        {
            &&& 0 <= i < front.len()
            &&& (#[trigger] front[i]).1 is Put
            &&& played(front.take(i)).active_id == id
            &&& n == (played(front.take(i)).active_offset + front[i].1->Put_len) as u64
        };
    assert(front.take(i) =~= log.take(i));
    assert(log[i] == front[i]);
}

proof fn lemma_played_lengths_were_written(log: Seq<Logged>, id: u64)
    requires
        seals_active(log),
    ensures
        played_lengths(log).contains_key(id) ==> played_lengths(log)[id] == 0 || wrote_upto(
            log,
            id,
            played_lengths(log)[id],
        ),
        played(log).active_offset == 0 || wrote_upto(
            log,
            played(log).active_id,
            played(log).active_offset,
        ),
    decreases log.len(),
{
    if log.len() > 0 {
        let front = log.drop_last();
        let n = log.len() - 1;
        assert forall|i: int| 0 <= i < front.len() && (#[trigger] front[i]).1 is SegmentSeal implies
            front[i].1->SegmentSeal_segment_id == played(front.take(i)).active_id by {
            assert(front.take(i) =~= log.take(i));
            assert(log[i] == front[i]);
        }
        lemma_played_lengths_were_written(front, id);
        assert(log.take(n) =~= front);
        assert(log[n] == log.last());
        let l = played(front);
        if l.active_offset > 0 {
            lemma_wrote_more(log, l.active_id, l.active_offset);
        }
        if played_lengths(front).contains_key(id) && played_lengths(front)[id] > 0 {
            lemma_wrote_more(log, id, played_lengths(front)[id]);
        }
        if log.last().1 is Put {
            assert(log[n].1 is Put);
            assert(wrote_upto(log, l.active_id, (l.active_offset + log.last().1->Put_len) as u64));
        }
    }
}

proof fn lemma_entries_end_is_an_end(es: Seq<EntryModel>)
    ensures
        entries_end(es) == 0 || exists|k: int|
            0 <= k < es.len() && entries_end(es) == ((#[trigger] es[k]).offset + es[k].len) as u64,
    decreases es.len(),
{
    if es.len() > 0 {
        let front = es.drop_last();
        lemma_entries_end_is_an_end(front);
        let n = es.len() - 1;
        if entries_end(es) == entries_end(front) && entries_end(front) != 0 {
            let k = choose|k: int|
                0 <= k < front.len() && entries_end(front) == ((#[trigger] front[k]).offset
                    + front[k].len) as u64;
            assert(es[k] == front[k]);
        } else {
            assert(es[n] == es.last());
        }
    }
}

proof fn lemma_replaced_lengths_are(
    lens: Map<u64, u64>,
    log: Seq<Logged>,
    pairs: Seq<(u64, u64)>,
    id: u64,
)
    ensures
        replaced_lengths(lens, log, pairs).contains_key(id) ==> {
            let n = replaced_lengths(lens, log, pairs)[id];
            n == 0 || n == entries_end(moved(log, id)) || lens.contains_key(id) && n == lens[id]
        },
    decreases pairs.len(),
{
    if pairs.len() > 0 {
        lemma_replaced_lengths_are(lens, log, pairs.drop_last(), id);
    }
}

/// The length to which recovery cuts a segment's file is no more than was written
/// to it: it is zero, or the end of a value that the log says was put or moved
/// there. So a store whose files are whole opens. A file that the log does not
/// know of is cut to nothing.
pub proof fn lemma_lengths_were_written(log: Seq<Logged>, id: u64)
    requires
        seals_active(log),
    ensures
        ({
            let n = target(committed_lengths(log), id);
            &&& n == 0 || wrote_upto(log, id, n) || moved_upto(log, id, n)
            &&& !committed_lengths(log).contains_key(id) ==> n == 0
            &&& committed_lengths(log).contains_key(id) ==> n == committed_lengths(log)[id]
        }),
{
    let l = played(log);
    let lens = played_lengths(log);
    let all = if lens.contains_key(l.active_id) {
        lens
    } else {
        lens.insert(l.active_id, l.active_offset)
    };
    lemma_played_lengths_were_written(log, id);
    lemma_entries_end_is_an_end(moved(log, id));
    lemma_replaced_lengths_are(all, log, swaps(log), id);
    if committed_lengths(log).contains_key(id) {
        let n = committed_lengths(log)[id];
        if n != 0 && n == entries_end(moved(log, id)) {
            let k = choose|k: int|
                0 <= k < moved(log, id).len() && n == ((#[trigger] moved(log, id)[k]).offset
                    + moved(log, id)[k].len) as u64;
            assert(moved_upto(log, id, n));
        }
    }
}

} // verus!
