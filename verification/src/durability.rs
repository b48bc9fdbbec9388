//! What recovery gives back: the layout that a store works on is the one that
//! its log leads to, through every operation.

use vstd::prelude::*;

use crate::block::BLOCK_SIZE;
use crate::error::StoreError;
use crate::layout::{moved, played, recovered, replaced, swaps, without, Layout, Location};
use crate::replay::{
    agree, lemma_agree_put, lemma_agree_repoint_all, lemma_agree_replace, lemma_agree_seal,
    lemma_push_contains, lemma_recovered_agg, lemma_recovered_commit, lemma_recovered_put,
    lemma_recovered_remap, lemma_recovered_seal, lemma_recovered_swap, lemma_repoint_all_concat,
    lemma_repoint_all_distinct, lemma_repoint_all_frame, lemma_repoint_all_index,
    lemma_repoint_all_put, lemma_without, untouched,
};
use crate::segment::apply::{applies, done_as, ApplyDone};
use crate::segment::handle;
use crate::segment::open::opened_state;
use crate::segment::compact::{
    chunk_end, compact_records, entry_cost, kept, plans, reclaimable, remap_records, PlanModel,
    REMAP_BUDGET, REMAP_KEY_MAX,
};
use crate::state::{agg_record, put_record, State, SwapModel};
use crate::table::{distinct, lemma_put};
use crate::wal::{
    committed_len, committed_part, lemma_committed_len, lemma_recovery_keeps_committed,
    lemma_scan_log, lemma_scan_stops_at_damage, log_bytes, log_encodable, logged_of, scan_of,
    EntryModel, Logged, RecordModel,
};

verus! {

/// A replacement of a segment that is in the log and has not taken effect
/// yet, with the values moved so far.
#[verifier::ext_equal]
pub ghost struct Replacement {
    pub old: u64,
    pub new: u64,
    pub entries: Seq<EntryModel>,
}

/// The layout once the replacement has taken effect.
pub open spec fn settled(l: Layout, o: Option<Replacement>) -> Layout {
    match o {
        Some(m) => l.repoint_all(m.entries, m.new).replace(m.old, m.new),
        None => l,
    }
}

/// The segment numbers in a record are below `n`.
pub open spec fn record_ids_below(rec: RecordModel, n: u64) -> bool {
    match rec {
        RecordModel::SegmentSeal { segment_id, next_segment_id } => segment_id < n
            && next_segment_id < n,
        RecordModel::SegmentSwap { old_segment_id, new_segment_id } => old_segment_id < n
            && new_segment_id < n,
        RecordModel::SegmentRemap { new_segment_id, .. } => new_segment_id < n,
        _ => true,
    }
}

/// The LSNs of the entries are below `n`.
pub open spec fn entries_below(es: Seq<EntryModel>, n: u64) -> bool {
    forall|i: int| 0 <= i < es.len() ==> (#[trigger] es[i]).lsn < n
}

/// The LSN of a record, and those that it names, are below `n`.
pub open spec fn lsns_below(l: Logged, n: u64) -> bool {
    l.0 < n && match l.1 {
        RecordModel::SegmentRemap { entries, .. } => entries_below(entries, n),
        _ => true,
    }
}

/// LSNs grow along the log, and no record names an LSN from its own on.
pub open spec fn in_order(log: Seq<Logged>) -> bool {
    &&& forall|i: int, j: int| 0 <= i < j < log.len() ==> (#[trigger] log[i]).0 < (#[trigger] log[j]).0
    &&& forall|i: int|
        0 <= i < log.len() ==> match (#[trigger] log[i]).1 {
            RecordModel::SegmentRemap { entries, .. } => entries_below(entries, log[i].0),
            _ => true,
        }
}

/// Segment `id` was replaced in `log`.
pub open spec fn was_replaced(log: Seq<Logged>, id: u64) -> bool {
    exists|i: int| 0 <= i < swaps(log).len() && (#[trigger] swaps(log)[i]).0 == id
}

/// The layout `l`, once `o` has taken effect, is the one that `log` leads to;
/// and new LSNs (from `next_lsn` on) and new segments (from `next_id` on) are
/// new to both.
pub open spec fn tracks(
    log: Seq<Logged>,
    l: Layout,
    next_lsn: u64,
    next_id: u64,
    o: Option<Replacement>,
) -> bool {
    &&& agree(recovered(log), settled(l, o))
    &&& distinct(l.index)
    &&& distinct(played(log).index)
    &&& forall|i: int| 0 <= i < log.len() ==> lsns_below(#[trigger] log[i], next_lsn)
    &&& in_order(log)
    &&& forall|lsn: u64| #[trigger] l.puts.contains_key(lsn) ==> lsn < next_lsn
    &&& forall|i: int| 0 <= i < log.len() ==> record_ids_below((#[trigger] log[i]).1, next_id)
    &&& l.active_id < next_id
    &&& forall|id: u64| #[trigger] l.sealed.contains(id) ==> id < next_id
    &&& !l.sealed.contains(l.active_id)
    &&& !was_replaced(log, l.active_id)
    &&& match o {
        Some(m) => {
            &&& swaps(log).len() > 0
            &&& swaps(log).last() == (m.old, m.new)
            &&& forall|i: int| 0 <= i < swaps(log).len() - 1 ==> (#[trigger] swaps(log)[i]).1 != m.new
            &&& moved(log, m.new) == m.entries
            &&& entries_below(m.entries, next_lsn)
            &&& m.new < next_id
            &&& m.new != l.active_id
            &&& m.old != l.active_id
        },
        None => true,
    }
}

pub(crate) proof fn lemma_moved_below(log: Seq<Logged>, new: u64, n: u64)
    requires
        forall|i: int| 0 <= i < log.len() ==> lsns_below(#[trigger] log[i], n),
    ensures
        entries_below(moved(log, new), n),
    decreases log.len(),
{
    if log.len() > 0 {
        let front = log.drop_last();
        assert forall|i: int| 0 <= i < front.len() implies lsns_below(#[trigger] front[i], n) by {
            assert(front[i] == log[i]);
        }
        lemma_moved_below(front, new, n);
        assert(lsns_below(log[log.len() - 1], n));
        let rest = moved(front, new);
        let all = moved(log, new);
        assert forall|i: int| 0 <= i < all.len() implies (#[trigger] all[i]).lsn < n by {
            if i < rest.len() {
                assert(all[i] == rest[i]);
            } else {
                let entries = log.last().1->entries;
                assert(all[i] == entries[i - rest.len()]);
            }
        }
    }
}

pub(crate) proof fn lemma_none_moved(log: Seq<Logged>, n: u64, new: u64)
    requires
        forall|i: int| 0 <= i < log.len() ==> record_ids_below((#[trigger] log[i]).1, n),
        new >= n,
    ensures
        moved(log, new).len() == 0,
        forall|i: int| 0 <= i < swaps(log).len() ==> (#[trigger] swaps(log)[i]).1 != new,
    decreases log.len(),
{
    if log.len() > 0 {
        let front = log.drop_last();
        assert forall|i: int| 0 <= i < front.len() implies record_ids_below((#[trigger] front[i]).1, n) by {
            assert(front[i] == log[i]);
        }
        lemma_none_moved(front, n, new);
        assert(record_ids_below(log[log.len() - 1].1, n));
        assert forall|i: int| 0 <= i < swaps(log).len() implies (#[trigger] swaps(log)[i]).1 != new by {
            if i < swaps(front).len() {
                assert(swaps(log)[i] == swaps(front)[i]);
            }
        }
    }
}

/// A log with one more record keeps its numbers below the bounds.
proof fn lemma_push_below(log: Seq<Logged>, r: Logged, lsn: u64, lsn2: u64, id: u64, id2: u64)
    requires
        forall|i: int| 0 <= i < log.len() ==> lsns_below(#[trigger] log[i], lsn),
        forall|i: int| 0 <= i < log.len() ==> record_ids_below((#[trigger] log[i]).1, id),
        lsn <= lsn2,
        id <= id2,
        lsns_below(r, lsn2),
        record_ids_below(r.1, id2),
    ensures
        forall|i: int| 0 <= i < log.push(r).len() ==> lsns_below(#[trigger] log.push(r)[i], lsn2),
        forall|i: int|
            0 <= i < log.push(r).len() ==> record_ids_below((#[trigger] log.push(r)[i]).1, id2),
{
    let p = log.push(r);
    assert forall|i: int| 0 <= i < p.len() implies lsns_below(#[trigger] p[i], lsn2) by {
        if i < log.len() {
            assert(p[i] == log[i]);
            if let RecordModel::SegmentRemap { entries, .. } = log[i].1 {
                assert(entries_below(entries, lsn));
                assert(entries_below(entries, lsn2));
            }
        }
    }
    assert forall|i: int| 0 <= i < p.len() implies record_ids_below((#[trigger] p[i]).1, id2) by {
        if i < log.len() {
            assert(p[i] == log[i]);
        }
    }
}

pub(crate) proof fn lemma_swaps_push(log: Seq<Logged>, r: Logged)
    ensures
        swaps(log.push(r)) == (match r.1 {
            RecordModel::SegmentSwap { old_segment_id, new_segment_id } => swaps(log).push(
                (old_segment_id, new_segment_id),
            ),
            _ => swaps(log),
        }),
        played(log.push(r)) == played(log).step(r),
{
    assert(log.push(r).drop_last() =~= log);
}

proof fn lemma_moved_push(log: Seq<Logged>, r: Logged, new: u64)
    ensures
        moved(log.push(r), new) == (match r.1 {
            RecordModel::SegmentRemap { new_segment_id, entries } => if new_segment_id == new {
                moved(log, new) + entries
            } else {
                moved(log, new)
            },
            _ => moved(log, new),
        }),
{
    assert(log.push(r).drop_last() =~= log);
}

/// A put at a new LSN.
proof fn lemma_tracks_put(
    log: Seq<Logged>,
    l: Layout,
    next_lsn: u64,
    next_id: u64,
    o: Option<Replacement>,
    lsn: u64,
    key: Seq<char>,
    len: u32,
    stripe: u64,
)
    requires
        tracks(log, l, next_lsn, next_id, o),
        next_lsn <= lsn < u64::MAX,
    ensures
        tracks(
            log.push((lsn, RecordModel::Put { key, len, stripe_id: stripe })),
            l.put(key, len, lsn),
            (lsn + 1) as u64,
            next_id,
            o,
        ),
{
    let r = (lsn, RecordModel::Put { key, len, stripe_id: stripe });
    let pairs = swaps(log);
    assert forall|i: int| 0 <= i < pairs.len() implies untouched(
        moved(log, (#[trigger] pairs[i]).1),
        lsn,
    ) by {
        lemma_moved_below(log, pairs[i].1, next_lsn);
    }
    lemma_recovered_put(log, lsn, key, len, stripe);
    lemma_agree_put(recovered(log), settled(l, o), key, len, lsn);
    if let Some(m) = o {
        lemma_repoint_all_put(l, m.entries, m.new, key, len, lsn);
        let a = l.repoint_all(m.entries, m.new);
        assert(a.put(key, len, lsn).replace(m.old, m.new) =~= a.replace(m.old, m.new).put(
            key,
            len,
            lsn,
        ));
        lemma_moved_push(log, r, m.new);
    }
    assert(settled(l.put(key, len, lsn), o) == settled(l, o).put(key, len, lsn));
    lemma_push_below(log, r, next_lsn, (lsn + 1) as u64, next_id, next_id);
    lemma_swaps_push(log, r);
    let at = Location { seg: l.active_id, offset: l.active_offset, len, lsn };
    lemma_put(l.index, key, at, key);
    let p = played(log);
    lemma_put(
        p.index,
        key,
        Location { seg: p.active_id, offset: p.active_offset, len, lsn },
        key,
    );
    assert(agree(recovered(log).seen(lsn).put(key, len, lsn), settled(l, o).put(key, len, lsn)));
}

/// Deltas at a new LSN.
proof fn lemma_tracks_agg(
    log: Seq<Logged>,
    l: Layout,
    next_lsn: u64,
    next_id: u64,
    o: Option<Replacement>,
    r: Logged,
)
    requires
        tracks(log, l, next_lsn, next_id, o),
        next_lsn <= r.0 < u64::MAX,
        r.1 is AggDelta,
    ensures
        tracks(log.push(r), l, (r.0 + 1) as u64, next_id, o),
{
    lemma_recovered_agg(log, r);
    lemma_push_below(log, r, next_lsn, (r.0 + 1) as u64, next_id, next_id);
    lemma_swaps_push(log, r);
    if let Some(m) = o {
        lemma_moved_push(log, r, m.new);
    }
    assert(agree(recovered(log).seen(r.0), settled(l, o)));
}

/// A commit at a new LSN.
proof fn lemma_tracks_commit(
    log: Seq<Logged>,
    l: Layout,
    next_lsn: u64,
    next_id: u64,
    o: Option<Replacement>,
    lsn: u64,
    upto: u64,
)
    requires
        tracks(log, l, next_lsn, next_id, o),
        next_lsn <= lsn < u64::MAX,
    ensures
        tracks(
            log.push((lsn, RecordModel::Commit { lsn: upto })),
            l.commit(upto, lsn),
            (lsn + 1) as u64,
            next_id,
            o,
        ),
{
    let r = (lsn, RecordModel::Commit { lsn: upto });
    lemma_recovered_commit(log, lsn, upto);
    lemma_push_below(log, r, next_lsn, (lsn + 1) as u64, next_id, next_id);
    lemma_swaps_push(log, r);
    if let Some(m) = o {
        lemma_moved_push(log, r, m.new);
        lemma_repoint_all_frame(l, m.entries, m.new);
        lemma_repoint_all_frame(l.commit(upto, lsn), m.entries, m.new);
        lemma_repoint_all_index(l, l.commit(upto, lsn), m.entries, m.new);
    }
    assert(settled(l.commit(upto, lsn), o) =~= settled(l, o).commit(upto, lsn));
    assert(agree(recovered(log).seen(lsn).commit(upto, lsn), settled(l, o).commit(upto, lsn)));
}

/// How far the log was seen does not matter.
pub(crate) proof fn lemma_tracks_seen(
    log: Seq<Logged>,
    l: Layout,
    next_lsn: u64,
    next_id: u64,
    o: Option<Replacement>,
    lsn: u64,
)
    requires
        tracks(log, l, next_lsn, next_id, o),
    ensures
        tracks(log, l.seen(lsn), next_lsn, next_id, o),
{
    if let Some(m) = o {
        lemma_repoint_all_frame(l, m.entries, m.new);
        lemma_repoint_all_frame(l.seen(lsn), m.entries, m.new);
        lemma_repoint_all_index(l, l.seen(lsn), m.entries, m.new);
    }
    assert(settled(l.seen(lsn), o) =~= settled(l, o).seen(lsn));
    assert(agree(recovered(log), settled(l, o).seen(lsn)));
}

/// The active segment is sealed and a new one takes its place.
proof fn lemma_tracks_seal(
    log: Seq<Logged>,
    l: Layout,
    next_lsn: u64,
    next_id: u64,
    o: Option<Replacement>,
    lsn: u64,
    next: u64,
)
    requires
        tracks(log, l, next_lsn, next_id, o),
        next_lsn <= lsn < u64::MAX,
        next_id <= next < u64::MAX,
    ensures
        tracks(
            log.push(
                (lsn, RecordModel::SegmentSeal { segment_id: l.active_id, next_segment_id: next }),
            ),
            l.seal(l.active_id, next),
            (lsn + 1) as u64,
            (next + 1) as u64,
            o,
        ),
{
    let id = l.active_id;
    let r = (lsn, RecordModel::SegmentSeal { segment_id: id, next_segment_id: next });
    let after = log.push(r);
    let n = l.seal(id, next);
    lemma_recovered_seal(log, lsn, id, next);
    lemma_agree_seal(recovered(log), settled(l, o), id, next);
    lemma_push_below(log, r, next_lsn, (lsn + 1) as u64, next_id, (next + 1) as u64);
    lemma_swaps_push(log, r);
    lemma_none_replaced(log, next_id, next);
    if let Some(m) = o {
        lemma_moved_push(log, r, m.new);
        lemma_repoint_all_frame(l, m.entries, m.new);
        lemma_repoint_all_frame(n, m.entries, m.new);
        lemma_repoint_all_index(l, n, m.entries, m.new);
        let x = settled(l, o).seal(id, next);
        let y = settled(n, o);
        assert forall|z: u64| #[trigger] x.sealed.contains(z) <==> y.sealed.contains(z) by {
            lemma_push_contains(without(l.sealed.push(id), m.old), m.new, z);
            lemma_without(l.sealed.push(id), m.old, z);
            lemma_push_contains(l.sealed, id, z);
            lemma_push_contains(without(l.sealed, m.old).push(m.new), id, z);
            lemma_push_contains(without(l.sealed, m.old), m.new, z);
            lemma_without(l.sealed, m.old, z);
        }
        assert(agree(x, y));
        lemma_agree_trans(recovered(after), recovered(log).seal(id, next), x);
        lemma_agree_trans(recovered(after), x, y);
        assert(swaps(log)[swaps(log).len() - 1].0 == m.old);
        assert(m.old != next) by {
            assert(swaps(log)[swaps(log).len() - 1] == (m.old, m.new));
        }
    } else {
        lemma_agree_trans(recovered(after), recovered(log).seal(id, next), n);
    }
    assert forall|z: u64| #[trigger] n.sealed.contains(z) implies z < next + 1 by {
        lemma_push_contains(l.sealed, id, z);
    }
    lemma_push_contains(l.sealed, id, next);
}

proof fn lemma_agree_trans(a: Layout, b: Layout, c: Layout)
    requires
        agree(a, b),
        agree(b, c),
    ensures
        agree(a, c),
{
    assert forall|id: u64| #[trigger] a.sealed.contains(id) <==> c.sealed.contains(id) by {
        assert(a.sealed.contains(id) <==> b.sealed.contains(id));
        assert(b.sealed.contains(id) <==> c.sealed.contains(id));
    }
    assert forall|lsn: u64| #[trigger] c.puts.contains_key(lsn) implies a.puts.contains_key(lsn)
        && a.puts[lsn] == c.puts[lsn] by {
        assert(b.puts.contains_key(lsn));
    }
}

/// A new segment was never replaced.
pub(crate) proof fn lemma_none_replaced(log: Seq<Logged>, n: u64, id: u64)
    requires
        forall|i: int| 0 <= i < log.len() ==> record_ids_below((#[trigger] log[i]).1, n),
        id >= n,
    ensures
        !was_replaced(log, id),
        forall|i: int| 0 <= i < swaps(log).len() ==> (#[trigger] swaps(log)[i]).0 < n,
    decreases log.len(),
{
    if log.len() > 0 {
        let front = log.drop_last();
        assert forall|i: int| 0 <= i < front.len() implies record_ids_below((#[trigger] front[i]).1, n) by {
            assert(front[i] == log[i]);
        }
        lemma_none_replaced(front, n, id);
        assert(record_ids_below(log[log.len() - 1].1, n));
        assert forall|i: int| 0 <= i < swaps(log).len() implies (#[trigger] swaps(log)[i]).0 < n by {
            if i < swaps(front).len() {
                assert(swaps(log)[i] == swaps(front)[i]);
            }
        }
    }
}

/// A replacement of a segment other than the active one by a new one is
/// logged.
pub(crate) proof fn lemma_tracks_swap(
    log: Seq<Logged>,
    l: Layout,
    next_lsn: u64,
    next_id: u64,
    lsn: u64,
    old: u64,
    new: u64,
    next_id2: u64,
)
    requires
        tracks(log, l, next_lsn, next_id, None),
        next_lsn <= lsn < u64::MAX,
        next_id <= new < next_id2,
        old != l.active_id,
        old < next_id2,
    ensures
        tracks(
            log.push((lsn, RecordModel::SegmentSwap { old_segment_id: old, new_segment_id: new })),
            l,
            (lsn + 1) as u64,
            next_id2,
            Some(Replacement { old, new, entries: Seq::empty() }),
        ),
{
    let r = (lsn, RecordModel::SegmentSwap { old_segment_id: old, new_segment_id: new });
    let after = log.push(r);
    let o = Some(Replacement { old, new, entries: Seq::empty() });
    lemma_none_moved(log, next_id, new);
    lemma_recovered_swap(log, lsn, old, new);
    lemma_agree_replace(recovered(log), l, old, new);
    lemma_push_below(log, r, next_lsn, (lsn + 1) as u64, next_id, next_id2);
    lemma_swaps_push(log, r);
    lemma_moved_push(log, r, new);
    assert(moved(after, new) =~= Seq::<EntryModel>::empty());
    assert(l.repoint_all(Seq::empty(), new) == l);
    let x = recovered(log).replace(old, new);
    let y = recovered(log).seen(lsn).replace(old, new);
    assert(y.sealed == x.sealed && y.puts == x.puts);
    assert(settled(l, o) == l.replace(old, new));
    assert(agree(y, settled(l, o)));
    assert forall|i: int| 0 <= i < swaps(after).len() implies (#[trigger] swaps(after)[i]).0
        != l.active_id by {
        if i < swaps(log).len() {
            assert(swaps(after)[i] == swaps(log)[i]);
        }
    }
    assert forall|i: int| 0 <= i < swaps(after).len() - 1 implies (#[trigger] swaps(after)[i]).1
        != new by {
        assert(swaps(after)[i] == swaps(log)[i]);
    }
}

/// Moved values are logged.
pub(crate) proof fn lemma_tracks_remap(
    log: Seq<Logged>,
    l: Layout,
    next_lsn: u64,
    next_id: u64,
    m: Replacement,
    lsn: u64,
    es: Seq<EntryModel>,
)
    requires
        tracks(log, l, next_lsn, next_id, Some(m)),
        next_lsn <= lsn < u64::MAX,
        entries_below(es, next_lsn),
    ensures
        tracks(
            log.push((lsn, RecordModel::SegmentRemap { new_segment_id: m.new, entries: es })),
            l,
            (lsn + 1) as u64,
            next_id,
            Some(Replacement { entries: m.entries + es, ..m }),
        ),
{
    let r = (lsn, RecordModel::SegmentRemap { new_segment_id: m.new, entries: es });
    let after = log.push(r);
    let all = m.entries + es;
    let o = Some(Replacement { entries: all, ..m });
    lemma_recovered_remap(log, lsn, m.new, es);
    lemma_agree_repoint_all(recovered(log), settled(l, Some(m)), es, m.new);
    lemma_repoint_all_index(recovered(log), recovered(log).seen(lsn), es, m.new);
    lemma_repoint_all_frame(recovered(log), es, m.new);
    lemma_repoint_all_frame(recovered(log).seen(lsn), es, m.new);
    lemma_push_below(log, r, next_lsn, (lsn + 1) as u64, next_id, next_id);
    lemma_swaps_push(log, r);
    lemma_moved_push(log, r, m.new);
    lemma_repoint_all_concat(l, m.entries, es, m.new);
    let a = l.repoint_all(m.entries, m.new);
    lemma_repoint_all_frame(a, es, m.new);
    lemma_repoint_all_frame(a.replace(m.old, m.new), es, m.new);
    lemma_repoint_all_index(a, a.replace(m.old, m.new), es, m.new);
    assert(settled(l, o) =~= settled(l, Some(m)).repoint_all(es, m.new));
    let x = recovered(log).repoint_all(es, m.new);
    let y = recovered(log).seen(lsn).repoint_all(es, m.new);
    assert(y.sealed == x.sealed && y.puts == x.puts);
    assert(agree(y, settled(l, o)));
    assert forall|i: int| 0 <= i < all.len() implies (#[trigger] all[i]).lsn < lsn + 1 by {
        if i < m.entries.len() {
            assert(all[i] == m.entries[i]);
        } else {
            assert(all[i] == es[i - m.entries.len()]);
        }
    }
}

/// The replacement takes effect, and values that are gone are forgotten.
proof fn lemma_tracks_settle(
    log: Seq<Logged>,
    l: Layout,
    next_lsn: u64,
    next_id: u64,
    m: Replacement,
    gone: Set<u64>,
)
    requires
        tracks(log, l, next_lsn, next_id, Some(m)),
    ensures
        tracks(
            log,
            l.repoint_all(m.entries, m.new).forget(gone).replace(m.old, m.new),
            next_lsn,
            next_id,
            None,
        ),
{
    let a = l.repoint_all(m.entries, m.new);
    let n = a.forget(gone).replace(m.old, m.new);
    lemma_repoint_all_distinct(l, m.entries, m.new);
    lemma_repoint_all_frame(l, m.entries, m.new);
    lemma_repoint_all_puts_below(l, m.entries, m.new, next_lsn);
    let x = settled(l, Some(m));
    assert(n.sealed == x.sealed);
    assert(agree(recovered(log), n)) by {
        assert forall|lsn: u64| #[trigger] n.puts.contains_key(lsn) implies recovered(
            log,
        ).puts.contains_key(lsn) && recovered(log).puts[lsn] == n.puts[lsn] by {
            assert(x.puts.contains_key(lsn));
        }
    }
    assert forall|id: u64| #[trigger] n.sealed.contains(id) implies id < next_id by {
        lemma_push_contains(without(l.sealed, m.old), m.new, id);
        lemma_without(l.sealed, m.old, id);
    }
    lemma_push_contains(without(l.sealed, m.old), m.new, l.active_id);
    lemma_without(l.sealed, m.old, l.active_id);
    assert forall|lsn: u64| #[trigger] n.puts.contains_key(lsn) implies lsn < next_lsn by {
        assert(a.puts.contains_key(lsn));
    }
}

proof fn lemma_repoint_all_puts_below(l: Layout, es: Seq<EntryModel>, new: u64, n: u64)
    requires
        entries_below(es, n),
        forall|lsn: u64| #[trigger] l.puts.contains_key(lsn) ==> lsn < n,
    ensures
        forall|lsn: u64| #[trigger] l.repoint_all(es, new).puts.contains_key(lsn) ==> lsn < n,
    decreases es.len(),
{
    if es.len() > 0 {
        let front = es.drop_last();
        assert forall|i: int| 0 <= i < front.len() implies (#[trigger] front[i]).lsn < n by {
            assert(front[i] == es[i]);
        }
        lemma_repoint_all_puts_below(l, front, new, n);
        assert(es[es.len() - 1].lsn < n);
        assert forall|lsn: u64| #[trigger] l.repoint_all(es, new).puts.contains_key(lsn) implies lsn
            < n by {
            if l.repoint_all(front, new).puts.contains_key(lsn) {
                assert(lsn < n);
            }
        }
    }
}

/// The layout of a store is the one that its log leads to, once `o` has taken
/// effect. Then nothing but the log is needed to build the store up again.
pub open spec fn faithful<F>(s: State<F>, o: Option<Replacement>) -> bool {
    tracks(s.wal.log(), s.layout, s.wal.next_lsn, s.next_free_id, o)
}

pub(crate) proof fn lemma_appended_log<F>(s: State<F>, rec: RecordModel, lsn: u64)
    requires
        s.wal.next_lsn <= lsn < u64::MAX,
    ensures
        s.logged(rec, lsn).wal.log() == s.wal.log().push((lsn, rec)),
        s.logged(rec, lsn).wal.next_lsn == lsn + 1,
{
    assert(s.logged(rec, lsn).wal.log() =~= s.wal.log().push((lsn, rec)));
}

/// A store that was just created is faithful to its log, which is empty.
pub proof fn lemma_new_store_faithful<F>(max: u64, floor: u64, next_id: u64)
    requires
        next_id > 0,
        floor < u64::MAX,
    ensures
        faithful(State { next_free_id: next_id, ..opened_state::<F>(Seq::empty(), max, floor) }, None),
        opened_state::<F>(Seq::empty(), max, floor).layout == Layout::empty(),
        opened_state::<F>(Seq::empty(), max, floor).wal.log().len() == 0,
{
    let s = opened_state::<F>(Seq::empty(), max, floor);
    assert(scan_of(Seq::empty()) == Seq::<Logged>::empty());
    assert(committed_part(Seq::empty()) =~= Seq::<Logged>::empty());
    assert(s.wal.log() =~= Seq::<Logged>::empty());
    let l = Layout::empty();
    assert(recovered(s.wal.log()) == l);
    assert(agree(l, l));
}

/// Sealing the active segment keeps a store faithful to its log.
pub proof fn lemma_seal_faithful<F>(s: State<F>, o: Option<Replacement>)
    requires
        faithful(s, o),
        s.wal.next_lsn < u64::MAX,
        s.next_free_id < u64::MAX,
    ensures
        faithful(s.seal_active(), o),
{
    lemma_appended_log(s, s.seal_record(), s.wal.next_lsn);
    lemma_tracks_seal(
        s.wal.log(),
        s.layout,
        s.wal.next_lsn,
        s.next_free_id,
        o,
        s.wal.next_lsn,
        s.next_free_id,
    );
}

/// A put keeps a store faithful to its log: recovery reproduces the exact
/// segment layout, with every seal that the put called for.
pub proof fn lemma_put_faithful<F>(
    s: State<F>,
    o: Option<Replacement>,
    opened: Option<F>,
    key: Seq<char>,
    len: u32,
)
    requires
        faithful(s, o),
        s.has_room(len as nat),
    ensures
        faithful(s.before_put(len as nat).with_active(opened), o),
        faithful(s.before_put(len as nat).with_active(opened).staged(key, len), o),
{
    if s.seal_due(len as nat) {
        lemma_seal_faithful(s, o);
    }
    let ready = s.before_put(len as nat).with_active(opened);
    assert(faithful(ready, o));
    let lsn = ready.wal.next_lsn;
    let put = put_record(key, len, lsn);
    let agg = agg_record(key, len);
    let mid = ready.logged(put, lsn);
    lemma_appended_log(ready, put, lsn);
    lemma_tracks_put(
        ready.wal.log(),
        ready.layout,
        lsn,
        ready.next_free_id,
        o,
        lsn,
        key,
        len,
        lsn,
    );
    lemma_appended_log(mid, agg, (lsn + 1) as u64);
    lemma_tracks_agg(
        mid.wal.log(),
        ready.layout.put(key, len, lsn),
        (lsn + 1) as u64,
        ready.next_free_id,
        o,
        ((lsn + 1) as u64, agg),
    );
    let done = State {
        layout: ready.layout.put(key, len, lsn),
        dirty: ready.dirty.insert(ready.layout.active_id),
        ..mid.logged(agg, (lsn + 1) as u64)
    };
    assert(faithful(done, o));
    if len > ready.max {
        lemma_seal_faithful(done, o);
    }
}

/// A sync keeps a store faithful to its log.
pub proof fn lemma_sync_faithful<F>(s: State<F>, o: Option<Replacement>)
    requires
        faithful(s, o),
    ensures
        faithful(s.wal_synced(), o),
        faithful(s.all_synced(), o),
{
    assert(s.wal.synced().log() =~= s.wal.log());
}

/// A commit keeps a store faithful to its log.
pub proof fn lemma_commit_faithful<F>(s: State<F>, o: Option<Replacement>, upto: u64)
    requires
        faithful(s, o),
        s.wal.next_lsn < u64::MAX,
    ensures
        faithful(s.committed(upto), o),
        s.committed(upto).wal.durable == s.wal.log().push(
            (s.wal.next_lsn, RecordModel::Commit { lsn: upto }),
        ),
        s.committed(upto).wal.buffered.len() == 0,
{
    let block = s.wal.next_lsn;
    let rec = RecordModel::Commit { lsn: upto };
    lemma_appended_log(s, rec, block);
    lemma_tracks_commit(s.wal.log(), s.layout, block, s.next_free_id, o, block, upto);
    let t = s.committed(upto);
    assert(t.wal.log() =~= s.logged(rec, block).wal.log());
    lemma_tracks_seen(
        t.wal.log(),
        s.layout.commit(upto, block),
        (block + 1) as u64,
        s.next_free_id,
        o,
        block,
    );
    assert(t.wal.durable =~= s.wal.log().push((block, rec)));
}

pub(crate) proof fn lemma_logged_all_concat<F>(s: State<F>, a: Seq<RecordModel>, b: Seq<RecordModel>)
    ensures
        s.logged_all(a + b) == s.logged_all(a).logged_all(b),
    decreases b.len(),
{
    if b.len() == 0 {
        assert(a + b =~= a);
    } else {
        assert((a + b).drop_last() =~= a + b.drop_last());
        lemma_logged_all_concat(s, a, b.drop_last());
    }
}

pub(crate) proof fn lemma_logged_all_one<F>(s: State<F>, rec: RecordModel)
    ensures
        s.logged_all(seq![rec]) == s.logged(rec, s.wal.next_lsn),
{
    assert(seq![rec].drop_last() =~= Seq::<RecordModel>::empty());
    assert(s.logged_all(Seq::empty()) == s);
}

pub(crate) proof fn lemma_chunk_end(es: Seq<EntryModel>, i: int, budget: int)
    requires
        0 <= i <= es.len(),
    ensures
        i <= chunk_end(es, i, budget) <= es.len(),
        i < es.len() && entry_cost(es[i]) <= budget ==> i < chunk_end(es, i, budget),
    decreases es.len() - i,
{
    if i < es.len() && entry_cost(es[i]) <= budget {
        lemma_chunk_end(es, i + 1, budget - entry_cost(es[i]));
    }
}

proof fn lemma_remaps_faithful<F>(s: State<F>, m: Replacement, es: Seq<EntryModel>, i: int)
    requires
        0 <= i <= es.len(),
        m.entries == es.take(i),
        faithful(s, Some(m)),
        s.wal.next_lsn + (es.len() - i) <= u64::MAX,
        entries_below(es, s.wal.next_lsn),
        forall|k: int| 0 <= k < es.len() ==> entry_cost(#[trigger] es[k]) <= REMAP_BUDGET,
    ensures
        faithful(
            s.logged_all(remap_records(m.new, es, i)),
            Some(Replacement { entries: es, ..m }),
        ),
    decreases es.len() - i,
{
    if i >= es.len() {
        assert(es.take(i) =~= es);
        assert(s.logged_all(remap_records(m.new, es, i)) == s);
    } else {
        let j = chunk_end(es, i, REMAP_BUDGET as int);
        assert(entry_cost(es[i]) <= REMAP_BUDGET);
        lemma_chunk_end(es, i, REMAP_BUDGET as int);
        let part = es.subrange(i, j);
        let rec = RecordModel::SegmentRemap { new_segment_id: m.new, entries: part };
        let rest = remap_records(m.new, es, j);
        lemma_logged_all_concat(s, seq![rec], rest);
        lemma_logged_all_one(s, rec);
        let lsn = s.wal.next_lsn;
        let t = s.logged(rec, lsn);
        lemma_appended_log(s, rec, lsn);
        assert(entries_below(part, lsn)) by {
            assert forall|k: int| 0 <= k < part.len() implies (#[trigger] part[k]).lsn < lsn by {
                assert(part[k] == es[i + k]);
            }
        }
        lemma_tracks_remap(s.wal.log(), s.layout, lsn, s.next_free_id, m, lsn, part);
        assert(m.entries + part =~= es.take(j));
        let m2 = Replacement { entries: es.take(j), ..m };
        assert(faithful(t, Some(m2)));
        assert(entries_below(es, t.wal.next_lsn));
        lemma_remaps_faithful(t, m2, es, j);
    }
}

/// A compaction rewrites a sealed segment.
pub proof fn lemma_planned_is_sealed<F>(s: State<F>, horizon: u64, plan: PlanModel<F>)
    requires
        plans(s, horizon, plan),
    ensures
        s.layout.sealed.contains(plan.old),
{
    let l = s.layout;
    let i = choose|i: int|
        0 <= i < l.sealed.len() && (#[trigger] l.sealed[i]) == plan.old && reclaimable(
            l,
            plan.old,
            horizon,
        ) && forall|j: int| 0 <= j < i ==> !reclaimable(l, #[trigger] l.sealed[j], horizon);
    assert(l.sealed[i] == plan.old);
}

/// Logging a compaction keeps a store faithful to its log: what the log leads
/// to is the layout with the compaction.
pub proof fn lemma_compact_stage_faithful<F>(s: State<F>, horizon: u64, plan: PlanModel<F>)
    requires
        faithful(s, None),
        plans(s, horizon, plan),
        s.next_free_id < u64::MAX,
        s.wal.next_lsn + plan.entries.len() + 1 <= u64::MAX,
    ensures
        faithful(
            State { next_free_id: (s.next_free_id + 1) as u64, ..s }.logged_all(
                compact_records(plan.old, plan.new, plan.entries),
            ),
            Some(Replacement { old: plan.old, new: plan.new, entries: plan.entries }),
        ),
{
    let t = State { next_free_id: (s.next_free_id + 1) as u64, ..s };
    let es = plan.entries;
    let l = s.layout;
    let swap = RecordModel::SegmentSwap { old_segment_id: plan.old, new_segment_id: plan.new };
    lemma_planned_is_sealed(s, horizon, plan);
    let lsn = s.wal.next_lsn;
    lemma_appended_log(t, swap, lsn);
    lemma_tracks_swap(
        s.wal.log(),
        l,
        lsn,
        s.next_free_id,
        lsn,
        plan.old,
        plan.new,
        t.next_free_id,
    );
    let u = t.logged(swap, lsn);
    let m = Replacement { old: plan.old, new: plan.new, entries: Seq::empty() };
    assert(faithful(u, Some(m)));
    lemma_logged_all_one(t, swap);
    lemma_logged_all_concat(t, seq![swap], remap_records(plan.new, es, 0));
    assert forall|k: int| 0 <= k < es.len() implies (#[trigger] es[k]).lsn < u.wal.next_lsn by {
        assert(kept(l, plan.old, horizon, plan.places[k].1));
        assert(l.puts.contains_key(es[k].lsn));
    }
    assert forall|k: int| 0 <= k < es.len() implies entry_cost(#[trigger] es[k]) <= REMAP_BUDGET by {
        let place = plan.places[k];
        assert(vstd::utf8::encode_utf8(l.puts[place.1].key).len() <= REMAP_KEY_MAX);
    }
    assert(es.take(0) =~= Seq::<EntryModel>::empty());
    lemma_remaps_faithful(u, m, es, 0);
}

/// Completing a logged compaction keeps a store faithful to its log, whatever
/// puts, seals and commits came between the two.
pub proof fn lemma_compact_commit_faithful<F>(
    s: State<F>,
    m: Replacement,
    file: F,
    gone: Set<u64>,
)
    requires
        faithful(s, Some(m)),
    ensures
        faithful(s.compacted(m.old, m.new, file, m.entries, gone), None),
{
    lemma_tracks_settle(s.wal.log(), s.layout, s.wal.next_lsn, s.next_free_id, m, gone);
}

/// The replacement that a follower waits to complete.
pub open spec fn waiting<F>(w: Option<SwapModel<F>>) -> Option<Replacement> {
    match w {
        Some(m) => Some(Replacement { old: m.old, new: m.new, entries: m.entries }),
        None => None,
    }
}

/// The layout of a follower is the one that its log leads to, once the
/// replacement that it waits for has taken effect. The log names no segment
/// from `n` on.
pub open spec fn follows<F>(s: State<F>, n: u64) -> bool {
    tracks(s.wal.log(), s.layout, s.wal.next_lsn, n, waiting(s.swap))
}

/// `rec` names a new segment where it has to, and replaces none but sealed
/// ones, as the records of a leader do.
pub open spec fn names_new_segment(rec: RecordModel, n: u64, active: u64) -> bool {
    match rec {
        RecordModel::SegmentSeal { next_segment_id, .. } => n <= next_segment_id < u64::MAX,
        RecordModel::SegmentSwap { old_segment_id, new_segment_id } => n <= new_segment_id < u64::MAX
            && old_segment_id < n && old_segment_id != active,
        _ => true,
    }
}

/// The bound on segment numbers after `rec`.
pub open spec fn next_bound(rec: RecordModel, n: u64) -> u64 {
    match rec {
        RecordModel::SegmentSeal { next_segment_id, .. } => (next_segment_id + 1) as u64,
        RecordModel::SegmentSwap { new_segment_id, .. } => (new_segment_id + 1) as u64,
        _ => n,
    }
}

proof fn lemma_movable_known<F>(s: State<F>, old: u64, es: Seq<EntryModel>)
    requires
        s.movable(old, es) == es.len(),
    ensures
        forall|i: int| 0 <= i < es.len() ==> s.layout.puts.contains_key((#[trigger] es[i]).lsn),
    decreases es.len(),
{
    if es.len() > 0 {
        let front = es.drop_last();
        if s.movable(old, front) != front.len() {
            lemma_movable_at_most(s, old, front);
        }
        lemma_movable_known(s, old, front);
        assert forall|i: int| 0 <= i < es.len() implies s.layout.puts.contains_key(
            (#[trigger] es[i]).lsn,
        ) by {
            if i < front.len() {
                assert(front[i] == es[i]);
            }
        }
    }
}

proof fn lemma_movable_at_most<F>(s: State<F>, old: u64, es: Seq<EntryModel>)
    ensures
        s.movable(old, es) <= es.len(),
    decreases es.len(),
{
    if es.len() > 0 {
        lemma_movable_at_most(s, old, es.drop_last());
    }
}

/// Applying the leader's records one after the other keeps a follower
/// faithful to its log.
pub proof fn lemma_apply_faithful<F>(
    before: State<F>,
    n: u64,
    lsn: u64,
    rec: RecordModel,
    data: Option<Seq<u8>>,
    io: ApplyDone<F>,
    after: State<F>,
    res: Result<(), StoreError>,
)
    requires
        follows(before, n),
        before.wal.next_lsn <= lsn < u64::MAX,
        names_new_segment(rec, n, before.layout.active_id),
        done_as(before.io_kind(rec, data), io),
        applies(before, lsn, rec, data, io, after, res),
        res is Ok,
    ensures
        follows(after, next_bound(rec, n)),
        after.wal.log() == before.wal.log().push((lsn, rec)),
        after.wal.next_lsn == lsn + 1,
{
    let s = before.seen(lsn);
    let o = waiting(before.swap);
    let log = before.wal.log();
    let next = before.wal.next_lsn;
    lemma_tracks_seen(log, before.layout, next, n, o, lsn);
    lemma_appended_log(s, rec, lsn);
    match rec {
        RecordModel::Put { key, len, stripe_id } => {
            let ready = s.with_active(handle(io->Wrote_0.opened));
            assert(ready.wal == s.wal && ready.layout == s.layout && ready.swap == s.swap);
            lemma_appended_log(ready, rec, lsn);
            lemma_tracks_put(log, s.layout, next, n, o, lsn, key, len, stripe_id);
        },
        RecordModel::SegmentSeal { segment_id, next_segment_id } => {
            lemma_tracks_seal(log, s.layout, next, n, o, lsn, next_segment_id);
        },
        RecordModel::AggDelta { .. } => {
            lemma_tracks_agg(log, s.layout, next, n, o, (lsn, rec));
        },
        RecordModel::SegmentSwap { old_segment_id, new_segment_id } => {
            lemma_tracks_swap(
                log,
                s.layout,
                next,
                n,
                lsn,
                old_segment_id,
                new_segment_id,
                (new_segment_id + 1) as u64,
            );
        },
        RecordModel::SegmentRemap { new_segment_id, entries } => {
            let w = s.swap.unwrap();
            lemma_movable_known(before, w.old, entries);
            assert forall|i: int| 0 <= i < entries.len() implies (#[trigger] entries[i]).lsn
                < next by {
                assert(s.layout.puts.contains_key(entries[i].lsn));
            }
            lemma_tracks_remap(log, s.layout, next, n, o.unwrap(), lsn, entries);
        },
        RecordModel::Commit { lsn: upto } => {
            lemma_tracks_commit(log, s.layout, next, n, o, lsn, upto);
        },
    }
}

/// Completing the waiting replacement keeps a follower faithful to its log.
pub proof fn lemma_swap_finished_faithful<F>(s: State<F>, n: u64, file: F)
    requires
        follows(s, n),
    ensures
        follows(s.swap_finished(file), n),
        s.swap_finished(file).swap is None,
{
    if let Some(w) = s.swap {
        let m = Replacement { old: w.old, new: w.new, entries: w.entries };
        lemma_tracks_settle(s.wal.log(), s.layout, s.wal.next_lsn, n, m, Set::empty());
        let a = s.layout.repoint_all(m.entries, m.new);
        assert(a.forget(Set::empty()) =~= a);
    }
}

/// Follower convergence: stores with the same log serve the same values from
/// the same places. They know the same objects, with the same lengths, in the
/// same segments.
pub proof fn lemma_same_log_same_layout<F, G>(a: State<F>, b: State<G>, n: u64, m: u64)
    requires
        follows(a, n),
        follows(b, m),
        a.swap is None,
        b.swap is None,
        a.wal.log() == b.wal.log(),
    ensures
        a.layout.index == b.layout.index,
        a.layout.live == b.layout.live,
        a.layout.active_id == b.layout.active_id,
        a.layout.active_offset == b.layout.active_offset,
        a.layout.committed_lsn == b.layout.committed_lsn,
        a.layout.last_commit_block == b.layout.last_commit_block,
        forall|id: u64| #[trigger] a.layout.sealed.contains(id) <==> b.layout.sealed.contains(id),
{
    let r = recovered(a.wal.log());
    assert(agree(r, a.layout) && agree(r, b.layout));
    assert forall|id: u64| #[trigger] a.layout.sealed.contains(id) <==> b.layout.sealed.contains(
        id,
    ) by {
        assert(r.sealed.contains(id) <==> a.layout.sealed.contains(id));
        assert(r.sealed.contains(id) <==> b.layout.sealed.contains(id));
    }
}

/// An acknowledged commit survives a crash: whatever was logged after it, up
/// to the next commit, and whatever damage follows that, recovery gives back
/// the layout of the commit.
pub proof fn lemma_commit_survives_crash<F>(
    s: State<F>,
    upto: u64,
    later: Seq<Logged>,
    damaged: Seq<u8>,
    after: Seq<u8>,
)
    requires
        faithful(s, None),
        s.wal.next_lsn < u64::MAX,
        log_encodable(s.committed(upto).wal.durable + later),
        forall|i: int| 0 <= i < later.len() ==> !((#[trigger] later[i]).1 is Commit),
        damaged.len() <= BLOCK_SIZE,
        damaged.len() == BLOCK_SIZE ==> logged_of(damaged) is None,
        damaged.len() < BLOCK_SIZE ==> after.len() == 0,
    ensures
        ({
            let t = s.committed(upto);
            let file = log_bytes(t.wal.durable + later) + damaged + after;
            let log = committed_part(scan_of(file));
            &&& log == t.wal.durable
            &&& agree(recovered(log), t.layout)
            &&& recovered(log).index == t.layout.index
            &&& recovered(log).live == t.layout.live
            &&& recovered(log).committed_lsn == t.layout.committed_lsn
        }),
{
    let t = s.committed(upto);
    lemma_commit_faithful(s, None, upto);
    let all = t.wal.durable + later;
    lemma_scan_stops_at_damage(all, damaged, after);
    let n = t.wal.durable.len();
    lemma_committed_len(all);
    assert(all[n - 1] == t.wal.durable.last());
    if committed_len(all) > n {
        let k = committed_len(all) - 1;
        assert(all[k] == later[k - n]);
    } else if committed_len(all) < n {
        assert(!(all[n - 1].1 is Commit));
    }
    assert(committed_part(all) =~= t.wal.durable);
    assert(t.wal.log() =~= t.wal.durable);
}

pub(crate) proof fn lemma_recovered_puts_below(log: Seq<Logged>, n: u64)
    requires
        forall|i: int| 0 <= i < log.len() ==> lsns_below(#[trigger] log[i], n),
    ensures
        forall|lsn: u64| #[trigger] recovered(log).puts.contains_key(lsn) ==> lsn < n,
{
    lemma_played_puts_below(log, n);
    lemma_replaced_puts_below(played(log), log, swaps(log), n);
}

proof fn lemma_played_puts_below(log: Seq<Logged>, n: u64)
    requires
        forall|i: int| 0 <= i < log.len() ==> lsns_below(#[trigger] log[i], n),
    ensures
        forall|lsn: u64| #[trigger] played(log).puts.contains_key(lsn) ==> lsn < n,
    decreases log.len(),
{
    if log.len() > 0 {
        let front = log.drop_last();
        assert forall|i: int| 0 <= i < front.len() implies lsns_below(#[trigger] front[i], n) by {
            assert(front[i] == log[i]);
        }
        lemma_played_puts_below(front, n);
        assert(lsns_below(log[log.len() - 1], n));
        assert forall|lsn: u64| #[trigger] played(log).puts.contains_key(lsn) implies lsn < n by {
            if played(front).puts.contains_key(lsn) {
                assert(lsn < n);
            }
        }
    }
}

proof fn lemma_replaced_puts_below(l: Layout, log: Seq<Logged>, pairs: Seq<(u64, u64)>, n: u64)
    requires
        forall|i: int| 0 <= i < log.len() ==> lsns_below(#[trigger] log[i], n),
        forall|lsn: u64| #[trigger] l.puts.contains_key(lsn) ==> lsn < n,
    ensures
        forall|lsn: u64| #[trigger] replaced(l, log, pairs).puts.contains_key(lsn) ==> lsn < n,
    decreases pairs.len(),
{
    if pairs.len() > 0 {
        lemma_replaced_puts_below(l, log, pairs.drop_last(), n);
        let (old, new) = pairs.last();
        lemma_moved_below(log, new, n);
        let m = replaced(l, log, pairs.drop_last());
        lemma_repoint_all_puts_below(m, moved(log, new), new, n);
        assert(replaced(l, log, pairs).puts == m.repoint_all(moved(log, new), new).puts);
    }
}

/// The layout that a log leads to is the one that it leads to: a store that
/// was built up from its log is faithful to it.
pub proof fn lemma_replayed_tracks(
    log: Seq<Logged>,
    l: Layout,
    next_lsn: u64,
    next_id: u64,
    next_lsn2: u64,
    next_id2: u64,
)
    requires
        tracks(log, l, next_lsn, next_id, None),
        forall|i: int| 0 <= i < log.len() ==> lsns_below(#[trigger] log[i], next_lsn2),
        forall|i: int| 0 <= i < log.len() ==> record_ids_below((#[trigger] log[i]).1, next_id2),
        l.active_id < next_id2,
        forall|id: u64| #[trigger] l.sealed.contains(id) ==> id < next_id2,
    ensures
        tracks(log, recovered(log), next_lsn2, next_id2, None),
{
    lemma_recovered_puts_below(log, next_lsn2);
    let r = recovered(log);
    assert(agree(r, r));
}

/// A store that is opened again after its last commit is faithful to its log,
/// and goes on with LSNs that were never used.
pub proof fn lemma_reopened_faithful<F>(s: State<F>, upto: u64, max: u64, floor: u64)
    requires
        faithful(s, None),
        floor < u64::MAX,
        s.wal.next_lsn < u64::MAX - 1,
        upto < u64::MAX - 1,
        log_encodable(s.committed(upto).wal.durable),
    ensures
        ({
            let file = log_bytes(s.committed(upto).wal.durable);
            let t = opened_state::<F>(file, max, floor);
            &&& tracks(t.wal.log(), t.layout, t.wal.next_lsn, s.next_free_id, None)
            &&& t.wal.log() == s.committed(upto).wal.log()
            &&& t.wal.next_lsn >= s.committed(upto).wal.next_lsn
        }),
{
    let c = s.committed(upto);
    lemma_commit_faithful(s, None, upto);
    let log = c.wal.durable;
    let file = log_bytes(log);
    assert(c.wal.log() =~= log);
    lemma_recovery_keeps_committed(log);
    lemma_scan_log(log, Seq::empty());
    assert(file + Seq::<u8>::empty() =~= file);
    assert(log + scan_of(Seq::empty()) =~= log);
    lemma_committed_len(log);
    assert(log[log.len() - 1].1 is Commit);
    assert(committed_len(log) == log.len());
    assert(committed_part(log) =~= log);
    let t = opened_state::<F>(file, max, floor);
    assert(t.wal.log() =~= log);
    assert(t.wal.next_lsn >= c.wal.next_lsn);
    assert forall|i: int| 0 <= i < log.len() implies lsns_below(#[trigger] log[i], t.wal.next_lsn) by {
        if let RecordModel::SegmentRemap { entries, .. } = log[i].1 {
            assert(entries_below(entries, c.wal.next_lsn));
            assert(entries_below(entries, t.wal.next_lsn));
        }
    }
    let n = s.next_free_id;
    lemma_replayed_tracks(log, c.layout, c.wal.next_lsn, n, t.wal.next_lsn, n);
}

} // verus!
