//! Follower convergence: a follower that applies a leader's records holds, for
//! every key, the bytes that the leader holds.

use vstd::prelude::*;

use crate::block::BLOCK_SIZE;
use crate::coverage::{
    covers, cut, lemma_covers_other, lemma_covers_put, lemma_covers_remap, lemma_covers_seal,
    lemma_covers_settle, lemma_covers_swap, survives,
};
use crate::durability::{
    follows, lemma_apply_faithful, lemma_same_log_same_layout, lemma_swap_finished_faithful,
    lemma_tracks_seen, names_new_segment, next_bound, settled, waiting, was_replaced, Replacement,
};
use crate::error::{ErrorModel, StoreError};
use crate::history::{
    all_committed, healthy, in_use, lemma_reopened_is_healthy, reopened, underway,
};
use crate::layout::{committed_lengths, record_in_range, recovered, swaps, without, Layout};
use crate::replay::{
    lemma_push_contains, lemma_repoint_all_frame, lemma_repoint_all_index, lemma_without,
};
use crate::residue::{
    accounts, lemma_accounts_other, lemma_accounts_put, lemma_accounts_remap, lemma_accounts_seal,
    lemma_accounts_settle, lemma_accounts_swap,
};
use crate::segment::apply::{
    applies, done_as, moves_value, moves_values, ApplyDone, MoveValue,
};
use crate::segment::compact::put_in;
use crate::state::State;
use crate::table::{lemma_slot, lookup, slot};
use crate::values::{
    copies, entry_of, lemma_put_is_stored, lemma_replacement_keeps_values, lemma_repointed,
    lemma_seal_keeps_values, lemma_value_is_read, names_puts, sound, value_of, written, Disk,
};
use crate::visible::caught_up;
use crate::wal::{log_bytes, log_encodable, logged_of, EntryModel, Logged, RecordModel};

verus! {

/// `temp` holds the copies of `es`, out of segment `old`.
pub open spec fn holds_moved(
    disk: Disk,
    l: Layout,
    old: u64,
    es: Seq<EntryModel>,
    temp: Seq<u8>,
) -> bool {
    forall|i: int|
        0 <= i < es.len() ==> (#[trigger] es[i]).offset + es[i].len <= temp.len() && temp.subrange(
            es[i].offset as int,
            es[i].offset + es[i].len,
        ) == disk[old].subrange(
            l.puts[es[i].lsn].offset as int,
            l.puts[es[i].lsn].offset + es[i].len,
        )
}

/// A follower's store is in order. `disk` are its segment files, `temp` the
/// file of the replacement that it waits to complete, and `vals` the values
/// that it was sent, by LSN. The log names no segment from `n` on.
pub open spec fn in_step<F>(
    s: State<F>,
    n: u64,
    disk: Disk,
    temp: Seq<u8>,
    vals: Map<u64, Seq<u8>>,
) -> bool {
    &&& follows(s, n)
    &&& covers(s.wal.log(), s.layout, n, waiting(s.swap))
    &&& accounts(s.wal.log(), s.layout, waiting(s.swap))
    &&& sound(disk, s.layout, vals)
    &&& forall|lsn: u64| #[trigger] s.layout.puts.contains_key(lsn) ==> s.layout.puts[lsn].seg < n
    &&& in_use(s, disk)
    &&& s.swap matches Some(w) ==> {
        &&& w.old != w.new
        &&& disk.contains_key(w.old)
        &&& forall|j: int|
            0 <= j < w.entries.len() ==> (#[trigger] w.entries[j]).offset + w.entries[j].len
                <= u64::MAX
        &&& forall|lsn: u64| #[trigger]
            s.layout.puts.contains_key(lsn) ==> s.layout.puts[lsn].seg != w.new
        &&& names_puts(s.layout, w.old, w.entries)
        &&& holds_moved(disk, s.layout, w.old, w.entries, temp)
    }
}

/// `rec` is as a leader writes it: new segments are new, sealed segments have
/// something in them, replaced segments are sealed, and what is moved are
/// values of the segment that is replaced.
pub open spec fn as_leader_writes<F>(s: State<F>, n: u64, rec: RecordModel) -> bool {
    &&& names_new_segment(rec, n, s.layout.active_id)
    &&& record_in_range(rec)
    &&& match rec {
        RecordModel::SegmentSeal { .. } => s.layout.active_offset > 0,
        RecordModel::SegmentSwap { old_segment_id, .. } => s.layout.sealed.contains(
            old_segment_id,
        ),
        RecordModel::SegmentRemap { entries, .. } => s.swap matches Some(w) ==> names_puts(
            s.layout,
            w.old,
            entries,
        ),
        _ => true,
    }
}

/// The segment files once `rec` is applied.
pub open spec fn disk_after(
    disk: Disk,
    l: Layout,
    rec: RecordModel,
    data: Option<Seq<u8>>,
) -> Disk {
    match (rec, data) {
        (RecordModel::Put { .. }, Some(value)) => written(
            disk,
            l.active_id,
            l.active_offset,
            value,
        ),
        _ => disk,
    }
}

/// The values sent once `rec` is applied.
pub open spec fn vals_after(
    vals: Map<u64, Seq<u8>>,
    lsn: u64,
    rec: RecordModel,
    data: Option<Seq<u8>>,
) -> Map<u64, Seq<u8>> {
    match (rec, data) {
        (RecordModel::Put { .. }, Some(value)) => vals.insert(lsn, value),
        _ => vals,
    }
}

/// The replacement's file holds what it is to hold once `rec` is applied.
pub open spec fn temp_after<F>(
    s: State<F>,
    disk: Disk,
    rec: RecordModel,
    temp: Seq<u8>,
    temp2: Seq<u8>,
) -> bool {
    match rec {
        RecordModel::SegmentRemap { entries, .. } => s.swap matches Some(w) ==> holds_moved(
            disk,
            s.layout,
            w.old,
            w.entries + entries,
            temp2,
        ),
        RecordModel::SegmentSwap { .. } => true,
        _ => temp2 == temp,
    }
}

/// Applying a leader's record keeps a follower in order.
pub proof fn lemma_apply_keeps_in_step<F>(
    before: State<F>,
    n: u64,
    disk: Disk,
    temp: Seq<u8>,
    vals: Map<u64, Seq<u8>>,
    lsn: u64,
    rec: RecordModel,
    data: Option<Seq<u8>>,
    io: ApplyDone<F>,
    after: State<F>,
    res: Result<(), StoreError>,
    temp2: Seq<u8>,
)
    requires
        in_step(before, n, disk, temp, vals),
        before.wal.next_lsn <= lsn,
        before.can_apply(lsn, rec),
        as_leader_writes(before, n, rec),
        done_as(before.io_kind(rec, data), io),
        applies(before, lsn, rec, data, io, after, res),
        res is Ok,
        temp_after(before, disk, rec, temp, temp2),
    ensures
        in_step(
            after,
            next_bound(rec, n),
            disk_after(disk, before.layout, rec, data),
            temp2,
            vals_after(vals, lsn, rec, data),
        ),
        after.wal.log() == before.wal.log().push((lsn, rec)),
{
    lemma_apply_faithful(before, n, lsn, rec, data, io, after, res);
    let l = before.layout;
    let log = before.wal.log();
    let o = waiting(before.swap);
    let next = before.wal.next_lsn;
    let ready = l.seen(lsn);
    assert(sound(disk, ready, vals));
    lemma_seen(log, l, n, o, lsn);
    lemma_tracks_seen(log, l, next, n, o, lsn);
    match rec {
        RecordModel::Put { key, len, stripe_id } => {
            let value = data.unwrap();
            assert(!l.puts.contains_key(lsn));
            lemma_put_is_stored(disk, ready, vals, key, value, lsn);
            lemma_covers_put(log, ready, n, o, lsn, key, len, stripe_id);
            lemma_accounts_put(log, ready, next, n, o, lsn, key, len, stripe_id);
            let disk2 = written(disk, l.active_id, l.active_offset, value);
            assert(after.layout == ready.put(key, len, lsn));
            assert(in_use(after, disk2));
            if let Some(w) = before.swap {
                assert(disk2[w.old] == disk[w.old]);
                assert(names_puts(after.layout, w.old, w.entries)) by {
                    assert forall|i: int| 0 <= i < w.entries.len() implies after.layout.puts[(
                    #[trigger] w.entries[i]).lsn] == l.puts[w.entries[i].lsn]
                        && after.layout.puts.contains_key(w.entries[i].lsn) by {
                        assert(put_in(l, w.old, w.entries[i].lsn));
                    }
                }
                assert(holds_moved(disk2, after.layout, w.old, w.entries, temp2)) by {
                    assert forall|i: int| 0 <= i < w.entries.len() implies after.layout.puts[(
                    #[trigger] w.entries[i]).lsn] == l.puts[w.entries[i].lsn] by {
                        assert(put_in(l, w.old, w.entries[i].lsn));
                    }
                }
            }
        },
        RecordModel::SegmentSeal { segment_id, next_segment_id } => {
            lemma_seal_keeps_values(disk, ready, vals, segment_id, next_segment_id);
            lemma_covers_seal(log, ready, n, o, lsn, next_segment_id);
            lemma_accounts_seal(log, ready, o, lsn, next_segment_id);
            assert(in_use(after, disk)) by {
                assert forall|id: u64| #[trigger] after.layout.sealed.contains(id)
                    <==> l.sealed.contains(id) || id == l.active_id by {
                    lemma_push_contains(l.sealed, l.active_id, id);
                }
            }
        },
        RecordModel::AggDelta { .. } => {
            lemma_covers_other(log, ready, ready, n, o, (lsn, rec));
            lemma_accounts_other(log, ready, ready, o, (lsn, rec));
        },
        RecordModel::Commit { lsn: upto } => {
            let done = ready.commit(upto, lsn);
            lemma_covers_other(log, ready, done, n, o, (lsn, rec));
            lemma_accounts_other(log, ready, done, o, (lsn, rec));
        },
        RecordModel::SegmentSwap { old_segment_id, new_segment_id } => {
            lemma_covers_swap(
                log,
                ready,
                n,
                lsn,
                old_segment_id,
                new_segment_id,
                (new_segment_id + 1) as u64,
            );
            lemma_accounts_swap(log, ready, next, n, lsn, old_segment_id, new_segment_id);
        },
        RecordModel::SegmentRemap { new_segment_id, entries } => {
            let w = before.swap.unwrap();
            let all = w.entries + entries;
            lemma_covers_remap(log, ready, n, o.unwrap(), lsn, entries);
            lemma_accounts_remap(log, ready, next, n, o.unwrap(), lsn, entries);
            assert forall|j: int| 0 <= j < all.len() implies (#[trigger] all[j]).offset
                + all[j].len <= u64::MAX by {
                if j < w.entries.len() {
                    assert(all[j] == w.entries[j]);
                } else {
                    assert(all[j] == entries[j - w.entries.len()]);
                }
            }
            assert(names_puts(l, w.old, all)) by {
                assert forall|i: int| 0 <= i < all.len() implies put_in(
                    l,
                    w.old,
                    (#[trigger] all[i]).lsn,
                ) && l.puts[all[i].lsn].key == all[i].key && l.puts[all[i].lsn].len
                    == all[i].len by {
                    if i < w.entries.len() {
                        assert(all[i] == w.entries[i]);
                    } else {
                        assert(all[i] == entries[i - w.entries.len()]);
                    }
                }
            }
        },
    }
}

/// How far the log was seen does not matter.
proof fn lemma_seen(log: Seq<Logged>, l: Layout, n: u64, o: Option<Replacement>, lsn: u64)
    requires
        covers(log, l, n, o),
        accounts(log, l, o),
    ensures
        covers(log, l.seen(lsn), n, o),
        accounts(log, l.seen(lsn), o),
{
    if let Some(m) = o {
        lemma_repoint_all_frame(l, m.entries, m.new);
        lemma_repoint_all_frame(l.seen(lsn), m.entries, m.new);
        lemma_repoint_all_index(l, l.seen(lsn), m.entries, m.new);
    }
    assert(settled(l.seen(lsn), o).puts == settled(l, o).puts);
    assert(settled(l.seen(lsn), o).sealed == settled(l, o).sealed);
}

/// No key reads out of a segment that was replaced.
pub open spec fn clean(log: Seq<Logged>) -> bool {
    forall|i: int|
        0 <= i < recovered(log).index.len() ==> !was_replaced(
            log,
            (#[trigger] recovered(log).index[i]).1.seg,
        )
}

/// Completing the waiting replacement keeps a follower in order, and changes
/// no value.
pub proof fn lemma_finish_keeps_in_step<F>(
    s: State<F>,
    n: u64,
    disk: Disk,
    temp: Seq<u8>,
    vals: Map<u64, Seq<u8>>,
    file: F,
)
    requires
        in_step(s, n, disk, temp, vals),
        s.swap is Some,
        clean(s.wal.log()),
    ensures
        ({
            let t = s.swap_finished(file);
            let disk2 = disk.insert(s.swap->0.new, temp).remove(s.swap->0.old);
            &&& in_step(t, n, disk2, temp, vals)
            &&& t.swap is None
            &&& t.wal == s.wal
            &&& forall|k: Seq<char>| #[trigger]
                value_of(t.layout, vals, k) == value_of(s.layout, vals, k)
        }),
{
    let w = s.swap.unwrap();
    let l = s.layout;
    let log = s.wal.log();
    let es = w.entries;
    let t = s.swap_finished(file);
    let disk2 = disk.insert(w.new, temp).remove(w.old);
    lemma_swap_finished_faithful(s, n, file);
    lemma_repointed(l, w.old, w.new, es);
    let moved = l.repoint_all(es, w.new);
    assert(was_replaced(log, w.old)) by {
        assert(swaps(log)[swaps(log).len() - 1].0 == w.old);
    }
    assert forall|i: int| 0 <= i < l.index.len() && (#[trigger] l.index[i]).1.seg
        == w.old implies entry_of(es, l.index[i].1.lsn) is Some by {
        assert(settled(l, waiting(s.swap)).index == moved.index);
        assert(recovered(log).index[i] == moved.index[i]);
    }
    assert(copies(disk, l, w.old, w.new, es, temp));
    let m = Replacement { old: w.old, new: w.new, entries: es };
    lemma_covers_settle(log, l, n, m, Set::empty());
    lemma_accounts_settle(log, l, s.wal.next_lsn, n, m, Set::empty());
    lemma_replacement_keeps_values(disk, l, vals, w.old, w.new, es, Set::empty(), temp);
    assert(moved.forget(Set::empty()) =~= moved);
    assert forall|x: u64| #[trigger] t.layout.puts.contains_key(x) implies t.layout.puts[x].seg
        < n by {
        assert(moved.puts.dom().contains(x));
        assert(l.puts.contains_key(x));
    }
    assert(in_use(t, disk2)) by {
        lemma_repoint_all_frame(l, es, w.new);
        assert(t.layout.sealed == without(l.sealed, w.old).push(w.new));
        assert forall|id: u64| #[trigger] t.layout.sealed.contains(id) <==> id == w.new || (
        l.sealed.contains(id) && id != w.old) by {
            lemma_push_contains(without(l.sealed, w.old), w.new, id);
            lemma_without(l.sealed, w.old, id);
        }
    }
}

/// A follower that starts out with a store in order, be it new or recovered,
/// is in step.
pub proof fn lemma_healthy_is_in_step<F>(
    s: State<F>,
    disk: Disk,
    temp: Seq<u8>,
    vals: Map<u64, Seq<u8>>,
)
    requires
        healthy(s, disk, vals),
        s.swap is None,
    ensures
        in_step(s, s.next_free_id, disk, temp, vals),
{
}

/// A follower that is killed and restarted recovers a store in order, with
/// every value and aggregate that was committed. See
/// [`lemma_reopened_is_healthy`](crate::history::lemma_reopened_is_healthy).
pub proof fn lemma_follower_restarts<F>(
    s: State<F>,
    n: u64,
    disk: Disk,
    temp: Seq<u8>,
    vals: Map<u64, Seq<u8>>,
    later: Seq<Logged>,
    damaged: Seq<u8>,
    rest: Seq<u8>,
    after: Disk,
    floor: u64,
    t: State<F>,
)
    requires
        in_step(s, n, disk, temp, vals),
        s.swap is None,
        all_committed(s),
        log_encodable(s.wal.durable + later),
        forall|i: int|
            0 <= i < later.len() ==> !((#[trigger] later[i]).1 is Commit) && later[i].0
                >= s.wal.next_lsn,
        damaged.len() <= BLOCK_SIZE,
        damaged.len() == BLOCK_SIZE ==> logged_of(damaged) is None,
        damaged.len() < BLOCK_SIZE ==> rest.len() == 0,
        survives(disk, after, committed_lengths(s.wal.durable)),
        reopened(t, log_bytes(s.wal.durable + later) + damaged + rest, floor),
    ensures
        healthy(t, cut(after, committed_lengths(s.wal.durable)).restrict(disk.dom()), vals),
        t.wal.log() == s.wal.log(),
        forall|k: Seq<char>| #[trigger]
            value_of(t.layout, vals, k) == value_of(s.layout, vals, k),
        t.layout.live == s.layout.live,
{
    let u = State { next_free_id: n, ..s };
    assert(healthy(u, disk, vals));
    lemma_reopened_is_healthy(u, disk, vals, later, damaged, rest, after, floor, t);
}

/// Once all of a compaction's records are in the log, no key reads out of a
/// replaced segment: neither before the compaction is completed nor after.
pub proof fn lemma_leader_log_is_clean<F>(
    s: State<F>,
    o: Option<Replacement>,
    gone: Set<u64>,
    bytes: Seq<u8>,
    disk: Disk,
    vals: Map<u64, Seq<u8>>,
)
    requires
        underway(s, o, gone, bytes, disk, vals),
    ensures
        clean(s.wal.log()),
{
    let l = s.layout;
    let log = s.wal.log();
    if let Some(m) = o {
        lemma_repointed(l, m.old, m.new, m.entries);
    }
    let after = settled(l, o);
    assert forall|i: int| 0 <= i < recovered(log).index.len() implies !was_replaced(
        log,
        (#[trigger] recovered(log).index[i]).1.seg,
    ) by {
        assert(recovered(log).index[i] == after.index[i]);
        assert(disk.contains_key(l.index[i].1.seg));
        let seg = after.index[i].1.seg;
        if let Some(m) = o {
            lemma_push_contains(without(l.sealed, m.old), m.new, seg);
            lemma_without(l.sealed, m.old, seg);
        }
        if seg != l.active_id {
            assert(after.sealed.contains(seg));
        }
    }
}

/// Follower convergence: a follower with the log of a leader that has
/// committed everything, which was sent the values that were put, holds for
/// every key the bytes that the leader holds, and reads them.
pub proof fn lemma_followers_converge<F, G>(
    leader: State<F>,
    disk: Disk,
    vals: Map<u64, Seq<u8>>,
    follower: State<G>,
    n: u64,
    files: Disk,
    temp: Seq<u8>,
    sent: Map<u64, Seq<u8>>,
    key: Seq<char>,
)
    requires
        healthy(leader, disk, vals),
        caught_up(leader.layout),
        leader.swap is None,
        in_step(follower, n, files, temp, sent),
        follower.swap is None,
        follower.wal.log() == leader.wal.log(),
        forall|lsn: u64| #[trigger]
            sent.contains_key(lsn) && vals.contains_key(lsn) ==> sent[lsn] == vals[lsn],
    ensures
        value_of(follower.layout, sent, key) == value_of(leader.layout, vals, key),
        match value_of(leader.layout, vals, key) {
            Some(value) => {
                let at = lookup(follower.layout.index, key).unwrap();
                &&& follower.snapshot().read(key) == Ok::<
                    Option<(G, u64, u32)>,
                    ErrorModel,
                >(Some((follower.open[at.seg], at.offset, at.len)))
                &&& at.offset + at.len <= files[at.seg].len()
                &&& files[at.seg].subrange(at.offset as int, at.offset + at.len) == value
            },
            None => follower.snapshot().read(key) == Ok::<
                Option<(G, u64, u32)>,
                ErrorModel,
            >(None),
        },
        follower.layout.live == leader.layout.live,
{
    lemma_same_log_same_layout(leader, follower, leader.next_free_id, n);
    lemma_value_is_read(follower, files, sent, key);
    lemma_slot(leader.layout.index, key);
    if let Some(at) = lookup(leader.layout.index, key) {
        let i = slot(leader.layout.index, key);
        assert(leader.layout.index[i].1 == at);
        assert(follower.layout.index[i].1 == at);
        assert(leader.layout.puts.contains_key(at.lsn));
        assert(follower.layout.puts.contains_key(at.lsn));
    }
}

/// The copies that a follower is told to make for a remap, each of `len` bytes
/// from `offset` of a file to `to` of the replacement's, are those of the values
/// that the remap moves, out of the file of the segment that is replaced. Once
/// all of them are made, the replacement's file holds those values.
pub proof fn lemma_copies_are_the_values<F>(
    s: State<F>,
    disk: Disk,
    old: u64,
    es: Seq<EntryModel>,
    values: Seq<MoveValue<F>>,
    temp: Seq<u8>,
)
    requires
        moves_values(s, es, values),
        values.len() == es.len(),
        forall|i: int| 0 <= i < es.len() ==> s.move_error(old, #[trigger] es[i]) is None,
        forall|i: int|
            0 <= i < values.len() ==> (#[trigger] values[i]).to + values[i].len <= temp.len()
                && temp.subrange(values[i].to as int, values[i].to + values[i].len)
                == disk[old].subrange(
                values[i].offset as int,
                values[i].offset + values[i].len,
            ),
    ensures
        holds_moved(disk, s.layout, old, es, temp),
        forall|i: int| 0 <= i < values.len() ==> *(#[trigger] values[i]).from == s.open[old],
{
    assert forall|i: int| 0 <= i < values.len() implies *(#[trigger] values[i]).from == s.open[old]
        && values[i].to == es[i].offset && values[i].len == es[i].len && values[i].offset
        == s.layout.puts[es[i].lsn].offset by {
        assert(s.move_error(old, es[i]) is None);
        assert(moves_value(s, es[i], values[i]));
    }
    assert forall|i: int| 0 <= i < es.len() implies (#[trigger] es[i]).offset + es[i].len
        <= temp.len() && temp.subrange(es[i].offset as int, es[i].offset + es[i].len)
        == disk[old].subrange(
        s.layout.puts[es[i].lsn].offset as int,
        s.layout.puts[es[i].lsn].offset + es[i].len,
    ) by {
        assert(values[i].to == es[i].offset);
    }
}

} // verus!
