//! What every operation of a leader's store keeps: its log builds it up
//! again, recovery cuts off nothing that is in use, and every value is in its
//! place.

use vstd::prelude::*;

use crate::block::BLOCK_SIZE;
use crate::coverage::{
    cut,
    lemma_commit_within_lengths, lemma_compact_commit_within_lengths,
    lemma_compact_stage_within_lengths, lemma_cut_keeps_value, lemma_empty_within_lengths,
    lemma_put_within_lengths, lemma_replayed_covers, lemma_seal_within, survives, within_lengths,
};
use crate::durability::{
    entries_below, faithful, lemma_commit_faithful, lemma_compact_commit_faithful,
    lemma_compact_stage_faithful, lemma_new_store_faithful, lemma_planned_is_sealed,
    lemma_put_faithful, lemma_replayed_tracks, lemma_seal_faithful, lsns_below, was_replaced,
    Replacement,
};
use crate::error::ErrorModel;
use crate::layout::{committed_lengths, recovered, without, Layout};
use crate::replay::{lemma_push_contains, lemma_repoint_all_frame, lemma_without};
use crate::residue::{
    accounted, left_behind, lemma_commit_accounted, lemma_compact_commit_accounted,
    lemma_compact_stage_accounted, lemma_empty_accounted, lemma_put_accounted,
    lemma_seal_accounted,
};
use crate::segment::compact::{
    chunk_end, compact_records, dropped, kept, lemma_places_len_grows, places_len, plans, put_in,
    remap_records, PlanModel, REMAP_BUDGET,
};
use crate::segment::open::opened_state;
use crate::state::{Place, State};
use crate::table::lookup;
use crate::values::{
    copies, dead, entry_of, holds, holds_copies, lemma_empty_is_sound, lemma_entry_of,
    lemma_plan_copies, lemma_put_is_stored, lemma_put_keeps_copies, lemma_replacement_keeps_values,
    lemma_repointed, lemma_seal_keeps_values, lemma_stray_bytes, lemma_value_is_read, names_puts,
    numbered, put_at, sound, value_of, written, Disk,
};
use crate::visible::caught_up;
use crate::wal::{
    committed_len, committed_part, high_water_of, lemma_committed_len, lemma_scan_stops_at_damage,
    log_bytes, log_encodable, logged_of, scan_of, EntryModel, Logged, RecordModel,
};

verus! {

/// The files on disk are those of the segments in use, and all are open. The
/// active segment has one once something is in it.
pub open spec fn in_use<F>(s: State<F>, disk: Disk) -> bool {
    &&& forall|id: u64| #[trigger]
        disk.contains_key(id) ==> s.open.contains_key(id) && (s.layout.sealed.contains(id) || id
            == s.layout.active_id)
    &&& forall|id: u64| #[trigger] s.layout.sealed.contains(id) ==> disk.contains_key(id)
    &&& s.layout.active_offset > 0 ==> disk.contains_key(s.layout.active_id)
}

/// The store is in order. `disk` are the files of the segments in use, and
/// `vals` the values that were put, by LSN.
pub open spec fn healthy<F>(s: State<F>, disk: Disk, vals: Map<u64, Seq<u8>>) -> bool {
    &&& faithful(s, None)
    &&& within_lengths(s, None)
    &&& accounted(s, None)
    &&& sound(disk, s.layout, vals)
    &&& numbered(s)
    &&& in_use(s, disk)
}

/// A replacement that is under way has its values in hand: `bytes` is the new
/// segment, and the puts in `gone` are those that it leaves behind, which no
/// key reads.
pub open spec fn replacing(
    disk: Disk,
    l: Layout,
    o: Option<Replacement>,
    gone: Set<u64>,
    bytes: Seq<u8>,
) -> bool {
    match o {
        Some(m) => {
            &&& copies(disk, l, m.old, m.new, m.entries, bytes)
            &&& forall|lsn: u64| #[trigger]
                gone.contains(lsn) ==> dead(l, lsn) && put_in(l, m.old, lsn) && entry_of(
                    m.entries,
                    lsn,
                ) is None
            &&& forall|j: int|
                0 <= j < m.entries.len() ==> (#[trigger] m.entries[j]).offset + m.entries[j].len
                    <= u64::MAX
        },
        None => true,
    }
}

/// The store is in order while the replacement `o` is in its log and has not
/// taken effect.
pub open spec fn underway<F>(
    s: State<F>,
    o: Option<Replacement>,
    gone: Set<u64>,
    bytes: Seq<u8>,
    disk: Disk,
    vals: Map<u64, Seq<u8>>,
) -> bool {
    &&& faithful(s, o)
    &&& within_lengths(s, o)
    &&& accounted(s, o)
    &&& sound(disk, s.layout, vals)
    &&& numbered(s)
    &&& in_use(s, disk)
    &&& replacing(disk, s.layout, o, gone, bytes)
}

/// A store that was just created is in order.
pub proof fn lemma_new_store_is_healthy<F>(max: u64, floor: u64, next_id: u64, file: F)
    requires
        next_id > 0,
        floor < u64::MAX,
    ensures
        healthy(
            State {
                next_free_id: next_id,
                open: Map::empty().insert(0u64, file),
                ..opened_state::<F>(Seq::empty(), max, floor)
            },
            Map::empty().insert(0u64, Seq::empty()),
            Map::empty(),
        ),
{
    let disk: Disk = Map::empty().insert(0u64, Seq::empty());
    let s = State {
        next_free_id: next_id,
        open: Map::empty().insert(0u64, file),
        ..opened_state::<F>(Seq::empty(), max, floor)
    };
    lemma_new_store_faithful::<F>(max, floor, next_id);
    let bare = State { next_free_id: next_id, ..opened_state::<F>(Seq::empty(), max, floor) };
    assert(s.wal == bare.wal && s.layout == bare.layout);
    lemma_empty_within_lengths(s);
    lemma_empty_accounted(s);
    lemma_empty_is_sound(disk);
}

proof fn lemma_seal_keeps_order<F>(
    s: State<F>,
    disk: Disk,
    vals: Map<u64, Seq<u8>>,
)
    requires
        sound(disk, s.layout, vals),
        numbered(s),
        in_use(s, disk),
        disk.contains_key(s.layout.active_id),
        s.next_free_id < u64::MAX,
        s.wal.next_lsn < u64::MAX,
    ensures
        sound(disk, s.seal_active().layout, vals),
        numbered(s.seal_active()),
        in_use(s.seal_active(), disk),
        forall|k: Seq<char>| #[trigger]
            value_of(s.seal_active().layout, vals, k) == value_of(s.layout, vals, k),
{
    lemma_seal_keeps_values(disk, s.layout, vals, s.layout.active_id, s.next_free_id);
    lemma_seal_in_use(s, disk);
}

proof fn lemma_seal_in_use<F>(s: State<F>, disk: Disk)
    requires
        in_use(s, disk),
        disk.contains_key(s.layout.active_id),
    ensures
        in_use(s.seal_active(), disk),
{
    let l = s.layout;
    let sealed = l.seal(l.active_id, s.next_free_id).sealed;
    assert forall|id: u64| #[trigger] sealed.contains(id) <==> l.sealed.contains(id) || id
        == l.active_id by {
        lemma_push_contains(l.sealed, l.active_id, id);
    }
}

proof fn lemma_seal_keeps_replacing<F>(
    s: State<F>,
    o: Option<Replacement>,
    gone: Set<u64>,
    bytes: Seq<u8>,
    disk: Disk,
)
    requires
        replacing(disk, s.layout, o, gone, bytes),
        faithful(s.seal_active(), o),
    ensures
        replacing(disk, s.seal_active().layout, o, gone, bytes),
{
    if let Some(m) = o {
        let l = s.layout;
        let t = s.seal_active().layout;
        assert(names_puts(t, m.old, m.entries)) by {
            assert(names_puts(l, m.old, m.entries));
        }
        assert forall|lsn: u64| #[trigger] gone.contains(lsn) implies dead(t, lsn) && put_in(
            t,
            m.old,
            lsn,
        ) && entry_of(m.entries, lsn) is None by {
            assert(dead(l, lsn) && put_in(l, m.old, lsn));
        }
    }
}

/// A put keeps a store in order while a replacement is under way. Its value
/// is under its key from then on, and under every other key is what was
/// there.
pub proof fn lemma_put_keeps_underway<F>(
    s: State<F>,
    o: Option<Replacement>,
    gone: Set<u64>,
    bytes: Seq<u8>,
    disk: Disk,
    vals: Map<u64, Seq<u8>>,
    opened: Option<F>,
    key: Seq<char>,
    value: Seq<u8>,
)
    requires
        underway(s, o, gone, bytes, disk, vals),
        value.len() <= u32::MAX,
        s.has_room(value.len()),
        s.before_put(value.len()).with_active(opened).active_open(),
    ensures
        ({
            let ready = s.before_put(value.len()).with_active(opened);
            let t = ready.staged(key, value.len() as u32);
            let disk2 = written(disk, ready.layout.active_id, ready.layout.active_offset, value);
            let vals2 = vals.insert(ready.wal.next_lsn, value);
            &&& underway(t, o, gone, bytes, disk2, vals2)
            &&& value_of(t.layout, vals2, key) == Some(value)
            &&& forall|k: Seq<char>| k != key ==> #[trigger] value_of(t.layout, vals2, k)
                == value_of(s.layout, vals, k)
        }),
{
    let len = value.len() as u32;
    lemma_put_faithful(s, o, opened, key, len);
    lemma_put_within_lengths(s, o, opened, key, len);
    lemma_put_accounted(s, o, opened, key, len);
    let ready = s.before_put(value.len()).with_active(opened);
    if s.seal_due(value.len()) {
        lemma_seal_keeps_order(s, disk, vals);
        lemma_seal_faithful(s, o);
        lemma_seal_keeps_replacing(s, o, gone, bytes, disk);
    }
    let lsn = ready.wal.next_lsn;
    let l = ready.layout;
    let disk2 = written(disk, l.active_id, l.active_offset, value);
    let vals2 = vals.insert(lsn, value);
    assert(!l.puts.contains_key(lsn));
    lemma_put_is_stored(disk, l, vals, key, value, lsn);
    let put_layout = l.put(key, len, lsn);
    let t = ready.staged(key, len);
    assert(l.active_id < ready.next_free_id) by {
        assert(faithful(ready, o));
    }
    assert forall|x: u64| #[trigger] put_layout.puts.contains_key(x) implies x < lsn + 1
        && put_layout.puts[x].seg < ready.next_free_id by {
        if x != lsn {
            assert(l.puts.contains_key(x));
        }
    }
    if let Some(m) = o {
        assert forall|x: u64| #[trigger] gone.contains(x) implies l.puts.contains_key(x) by {
            assert(put_in(l, m.old, x));
        }
        lemma_put_keeps_copies(
            disk,
            l,
            m.old,
            m.new,
            m.entries,
            gone,
            bytes,
            key,
            value,
            lsn,
        );
        assert forall|x: u64| #[trigger] gone.contains(x) implies put_in(
            put_layout,
            m.old,
            x,
        ) by {
            assert(put_in(l, m.old, x));
        }
    }
    assert(replacing(disk2, put_layout, o, gone, bytes));
    if len > ready.max {
        lemma_seal_keeps_values(disk2, put_layout, vals2, l.active_id, ready.next_free_id);
        assert(replacing(disk2, t.layout, o, gone, bytes)) by {
            if let Some(m) = o {
                assert(names_puts(t.layout, m.old, m.entries)) by {
                    assert(names_puts(put_layout, m.old, m.entries));
                }
                assert forall|x: u64| #[trigger] gone.contains(x) implies dead(t.layout, x)
                    && put_in(t.layout, m.old, x) by {
                    assert(dead(put_layout, x) && put_in(put_layout, m.old, x));
                }
            }
        }
    }
    assert(sound(disk2, t.layout, vals2));
    assert(numbered(t)) by {
        assert forall|x: u64| #[trigger] t.layout.puts.contains_key(x) implies x < t.wal.next_lsn
            && t.layout.puts[x].seg < t.next_free_id by {
            assert(put_layout.puts.contains_key(x));
        }
    }
    assert(in_use(ready, disk));
    let stored = State { layout: put_layout, ..ready };
    assert(in_use(stored, disk2));
    if len > ready.max {
        lemma_seal_in_use(stored, disk2);
    }
    assert(in_use(t, disk2));
    assert(value_of(put_layout, vals2, key) == Some(value));
    assert forall|k: Seq<char>| k != key implies #[trigger] value_of(t.layout, vals2, k)
        == value_of(s.layout, vals, k) by {
        assert(value_of(put_layout, vals2, k) == value_of(l, vals, k));
        assert(value_of(l, vals, k) == value_of(s.layout, vals, k));
    }
}

/// A put that fails keeps a store in order, and changes no value. `stray` are
/// the bytes of it that were written, if its segment is open.
pub proof fn lemma_failed_put_keeps_underway<F>(
    s: State<F>,
    o: Option<Replacement>,
    gone: Set<u64>,
    bytes: Seq<u8>,
    disk: Disk,
    vals: Map<u64, Seq<u8>>,
    opened: Option<F>,
    len: nat,
    stray: Seq<u8>,
)
    requires
        underway(s, o, gone, bytes, disk, vals),
        s.has_room(len),
    ensures
        ({
            let ready = s.before_put(len).with_active(opened);
            let disk2 = if ready.active_open() {
                written(disk, ready.layout.active_id, ready.layout.active_offset, stray)
            } else {
                disk
            };
            &&& underway(ready, o, gone, bytes, disk2, vals)
            &&& forall|k: Seq<char>| #[trigger]
                value_of(ready.layout, vals, k) == value_of(s.layout, vals, k)
        }),
{
    let ready = s.before_put(len).with_active(opened);
    if s.seal_due(len) {
        lemma_seal_keeps_order(s, disk, vals);
        lemma_seal_faithful(s, o);
        lemma_seal_within(s, o);
        lemma_seal_accounted(s, o);
        lemma_seal_keeps_replacing(s, o, gone, bytes, disk);
    }
    assert(underway(ready, o, gone, bytes, disk, vals));
    if ready.active_open() {
        lemma_stray_bytes(disk, ready.layout, vals, stray);
    }
}

/// Syncing the log keeps a store in order.
pub proof fn lemma_sync_keeps_underway<F>(
    s: State<F>,
    o: Option<Replacement>,
    gone: Set<u64>,
    bytes: Seq<u8>,
    disk: Disk,
    vals: Map<u64, Seq<u8>>,
)
    requires
        underway(s, o, gone, bytes, disk, vals),
    ensures
        underway(s.wal_synced(), o, gone, bytes, disk, vals),
{
    assert(s.wal.synced().log() =~= s.wal.log());
}

/// A put keeps a store in order. Its value is under its key from then on, and
/// under every other key is what was there.
pub proof fn lemma_put_keeps_healthy<F>(
    s: State<F>,
    disk: Disk,
    vals: Map<u64, Seq<u8>>,
    opened: Option<F>,
    key: Seq<char>,
    value: Seq<u8>,
)
    requires
        healthy(s, disk, vals),
        value.len() <= u32::MAX,
        s.has_room(value.len()),
        s.before_put(value.len()).with_active(opened).active_open(),
    ensures
        ({
            let ready = s.before_put(value.len()).with_active(opened);
            let t = ready.staged(key, value.len() as u32);
            let disk2 = written(disk, ready.layout.active_id, ready.layout.active_offset, value);
            let vals2 = vals.insert(ready.wal.next_lsn, value);
            &&& healthy(t, disk2, vals2)
            &&& value_of(t.layout, vals2, key) == Some(value)
            &&& forall|k: Seq<char>| k != key ==> #[trigger] value_of(t.layout, vals2, k)
                == value_of(s.layout, vals, k)
        }),
{
    lemma_put_keeps_underway(
        s,
        None,
        Set::empty(),
        Seq::empty(),
        disk,
        vals,
        opened,
        key,
        value,
    );
}

/// A commit keeps a store in order while a replacement is under way, and
/// changes no value.
pub proof fn lemma_commit_keeps_underway<F>(
    s: State<F>,
    o: Option<Replacement>,
    gone: Set<u64>,
    bytes: Seq<u8>,
    disk: Disk,
    vals: Map<u64, Seq<u8>>,
    upto: u64,
)
    requires
        underway(s, o, gone, bytes, disk, vals),
        s.wal.next_lsn < u64::MAX,
    ensures
        underway(s.committed(upto), o, gone, bytes, disk, vals),
        forall|k: Seq<char>| #[trigger]
            value_of(s.committed(upto).layout, vals, k) == value_of(s.layout, vals, k),
{
    lemma_commit_faithful(s, o, upto);
    lemma_commit_within_lengths(s, o, upto);
    lemma_commit_accounted(s, o, upto);
    let t = s.committed(upto);
    assert forall|x: u64| #[trigger] t.layout.puts.contains_key(x) implies x < t.wal.next_lsn
        && t.layout.puts[x].seg < t.next_free_id by {
        assert(s.layout.puts.contains_key(x));
    }
    if let Some(m) = o {
        assert(names_puts(t.layout, m.old, m.entries)) by {
            assert(names_puts(s.layout, m.old, m.entries));
        }
        assert forall|x: u64| #[trigger] gone.contains(x) implies dead(t.layout, x) && put_in(
            t.layout,
            m.old,
            x,
        ) by {
            assert(dead(s.layout, x) && put_in(s.layout, m.old, x));
        }
    }
}

/// A commit keeps a store in order, and changes no value.
pub proof fn lemma_commit_keeps_healthy<F>(
    s: State<F>,
    disk: Disk,
    vals: Map<u64, Seq<u8>>,
    upto: u64,
)
    requires
        healthy(s, disk, vals),
        s.wal.next_lsn < u64::MAX,
    ensures
        healthy(s.committed(upto), disk, vals),
        forall|k: Seq<char>| #[trigger]
            value_of(s.committed(upto).layout, vals, k) == value_of(s.layout, vals, k),
        s.wal.next_lsn <= upto + 1 ==> caught_up(s.committed(upto).layout),
{
    lemma_commit_keeps_underway(s, None, Set::empty(), Seq::empty(), disk, vals, upto);
    assert forall|i: int| 0 <= i < s.layout.index.len() implies (
    #[trigger] s.layout.index[i]).1.lsn < s.wal.next_lsn by {
        assert(s.layout.puts.contains_key(s.layout.index[i].1.lsn));
    }
}

/// A store that is in order, with everything committed, reads back what was
/// put: the place that a read gives holds the value under the key.
pub proof fn lemma_healthy_reads_values<F>(
    s: State<F>,
    disk: Disk,
    vals: Map<u64, Seq<u8>>,
    key: Seq<char>,
)
    requires
        healthy(s, disk, vals),
        caught_up(s.layout),
    ensures
        match value_of(s.layout, vals, key) {
            Some(value) => {
                let at = lookup(s.layout.index, key).unwrap();
                &&& s.snapshot().read(key) == Ok::<
                    Option<(F, u64, u32)>,
                    ErrorModel,
                >(Some((s.open[at.seg], at.offset, at.len)))
                &&& at.offset + at.len <= disk[at.seg].len()
                &&& disk[at.seg].subrange(at.offset as int, at.offset + at.len) == value
            },
            None => s.snapshot().read(key) == Ok::<
                Option<(F, u64, u32)>,
                ErrorModel,
            >(None),
        },
{
    lemma_value_is_read(s, disk, vals, key);
}

proof fn lemma_logged_all_keeps<F>(s: State<F>, recs: Seq<RecordModel>)
    requires
        s.wal.next_lsn + recs.len() <= u64::MAX,
    ensures
        s.logged_all(recs).layout == s.layout,
        s.logged_all(recs).open == s.open,
        s.logged_all(recs).next_free_id == s.next_free_id,
        s.logged_all(recs).wal.next_lsn == s.wal.next_lsn + recs.len(),
    decreases recs.len(),
{
    if recs.len() > 0 {
        lemma_logged_all_keeps(s, recs.drop_last());
    }
}

proof fn lemma_remap_count(new: u64, es: Seq<EntryModel>, i: int)
    requires
        0 <= i <= es.len(),
    ensures
        remap_records(new, es, i).len() <= es.len() - i,
    decreases es.len() - i,
{
    if i < es.len() {
        let j = chunk_end(es, i, REMAP_BUDGET as int);
        if i < j <= es.len() {
            lemma_remap_count(new, es, j);
        }
    }
}

/// The store once a planned compaction is in its log.
pub open spec fn compaction_logged<F>(s: State<F>, plan: PlanModel<F>) -> State<F> {
    let numbered_state = State { next_free_id: (s.next_free_id + 1) as u64, ..s };
    numbered_state.logged_all(compact_records(plan.old, plan.new, plan.entries))
}

/// Logging a compaction changes nothing but the log, and numbers one segment
/// more.
pub proof fn lemma_compaction_logged<F>(s: State<F>, plan: PlanModel<F>)
    requires
        s.next_free_id < u64::MAX,
        s.wal.next_lsn + plan.entries.len() + 1 <= u64::MAX,
    ensures
        compaction_logged(s, plan).layout == s.layout,
        compaction_logged(s, plan).open == s.open,
        compaction_logged(s, plan).next_free_id == s.next_free_id + 1,
        s.wal.next_lsn < compaction_logged(s, plan).wal.next_lsn <= s.wal.next_lsn
            + plan.entries.len() + 1,
{
    lemma_remap_count(plan.new, plan.entries, 0);
    lemma_logged_all_keeps(
        State { next_free_id: (s.next_free_id + 1) as u64, ..s },
        compact_records(plan.old, plan.new, plan.entries),
    );
}

/// The replacement that a plan makes.
pub open spec fn replacement_of<F>(plan: PlanModel<F>) -> Replacement {
    Replacement { old: plan.old, new: plan.new, entries: plan.entries }
}

/// Logging a planned compaction leaves the store in order, with the
/// replacement under way. `bytes` is the new segment, as the plan says.
pub proof fn lemma_compaction_starts<F>(
    s: State<F>,
    disk: Disk,
    vals: Map<u64, Seq<u8>>,
    horizon: u64,
    plan: PlanModel<F>,
    bytes: Seq<u8>,
)
    requires
        healthy(s, disk, vals),
        plans(s, horizon, plan),
        holds_copies(disk, plan, s.layout, bytes),
        s.next_free_id < u64::MAX,
        s.wal.next_lsn + plan.entries.len() + 1 <= u64::MAX,
    ensures
        underway(
            compaction_logged(s, plan),
            Some(replacement_of(plan)),
            plan.dropped.to_set(),
            bytes,
            disk,
            vals,
        ),
        compaction_logged(s, plan).layout == s.layout,
{
    let l = s.layout;
    let t = compaction_logged(s, plan);
    let m = replacement_of(plan);
    let gone = plan.dropped.to_set();
    lemma_planned_is_sealed(s, horizon, plan);
    lemma_compaction_logged(s, plan);
    lemma_compact_stage_faithful(s, horizon, plan);
    lemma_compact_stage_within_lengths(s, horizon, plan);
    lemma_compact_stage_accounted(s, horizon, plan);
    lemma_plan_copies(s, horizon, plan, disk, vals, bytes);
    assert(numbered(t)) by {
        assert forall|x: u64| #[trigger] t.layout.puts.contains_key(x) implies x < t.wal.next_lsn
            && t.layout.puts[x].seg < t.next_free_id by {
            assert(l.puts.contains_key(x));
        }
    }
    assert forall|x: u64| #[trigger] gone.contains(x) implies dead(l, x) && put_in(
        l,
        plan.old,
        x,
    ) && entry_of(plan.entries, x) is None by {
        assert(plan.dropped.contains(x));
        assert(dropped(l, plan.old, horizon, x));
        lemma_entry_of(plan.entries, x);
        if let Some(e) = entry_of(plan.entries, x) {
            let j = choose|j: int| 0 <= j < plan.entries.len() && #[trigger] plan.entries[j] == e;
            assert(kept(l, plan.old, horizon, plan.places[j].1));
        }
    }
    assert forall|j: int| 0 <= j < plan.entries.len() implies (
    #[trigger] plan.entries[j]).offset + plan.entries[j].len <= u64::MAX by {
        lemma_entry_ends(l, plan.places, j);
    }
}

/// Completing a replacement that is under way leaves the store in order, and
/// changes no value and no aggregate.
pub proof fn lemma_compaction_completes<F>(
    s: State<F>,
    m: Replacement,
    gone: Set<u64>,
    bytes: Seq<u8>,
    disk: Disk,
    vals: Map<u64, Seq<u8>>,
    file: F,
)
    requires
        underway(s, Some(m), gone, bytes, disk, vals),
    ensures
        ({
            let t = s.compacted(m.old, m.new, file, m.entries, gone);
            &&& healthy(t, disk.insert(m.new, bytes).remove(m.old), vals)
            &&& forall|k: Seq<char>| #[trigger]
                value_of(t.layout, vals, k) == value_of(s.layout, vals, k)
            &&& t.layout.live == s.layout.live
        }),
{
    let l = s.layout;
    let t = s.compacted(m.old, m.new, file, m.entries, gone);
    let disk2 = disk.insert(m.new, bytes).remove(m.old);
    lemma_compact_commit_faithful(s, m, file, gone);
    lemma_compact_commit_within_lengths(s, m, file, gone, disk);
    lemma_replacement_keeps_values(disk, l, vals, m.old, m.new, m.entries, gone, bytes);
    lemma_repointed(l, m.old, m.new, m.entries);
    let moved = l.repoint_all(m.entries, m.new);
    assert(left_behind(l, m, gone)) by {
        assert forall|x: u64| #[trigger]
            gone.contains(x) && moved.puts.contains_key(x) implies moved.puts[x].seg == m.old by {
            assert(put_in(l, m.old, x));
        }
    }
    lemma_compact_commit_accounted(s, m, file, gone);
    assert(numbered(t)) by {
        assert forall|x: u64| #[trigger] t.layout.puts.contains_key(x) implies x < t.wal.next_lsn
            && t.layout.puts[x].seg < t.next_free_id by {
            assert(moved.puts.dom().contains(x));
            assert(l.puts.contains_key(x));
        }
    }
    assert(in_use(t, disk2)) by {
        lemma_repoint_all_frame(l, m.entries, m.new);
        assert(t.layout.sealed == without(l.sealed, m.old).push(m.new));
        assert forall|id: u64| #[trigger] t.layout.sealed.contains(id) <==> id == m.new || (
        l.sealed.contains(id) && id != m.old) by {
            lemma_push_contains(without(l.sealed, m.old), m.new, id);
            lemma_without(l.sealed, m.old, id);
        }
    }
}

/// A compaction that is planned, logged, committed and completed keeps a
/// store in order, and changes no value and no aggregate. `bytes` is the new
/// segment, as the plan says.
pub proof fn lemma_compaction_keeps_healthy<F>(
    s: State<F>,
    disk: Disk,
    vals: Map<u64, Seq<u8>>,
    horizon: u64,
    plan: PlanModel<F>,
    file: F,
    bytes: Seq<u8>,
    upto: u64,
)
    requires
        healthy(s, disk, vals),
        plans(s, horizon, plan),
        holds_copies(disk, plan, s.layout, bytes),
        s.next_free_id < u64::MAX,
        s.wal.next_lsn + plan.entries.len() + 1 < u64::MAX,
    ensures
        ({
            let t = compaction_logged(s, plan).committed(upto).compacted(
                plan.old,
                plan.new,
                file,
                plan.entries,
                plan.dropped.to_set(),
            );
            &&& healthy(t, disk.insert(plan.new, bytes).remove(plan.old), vals)
            &&& forall|k: Seq<char>| #[trigger]
                value_of(t.layout, vals, k) == value_of(s.layout, vals, k)
            &&& t.layout.live == s.layout.live
        }),
{
    let staged = compaction_logged(s, plan);
    let m = replacement_of(plan);
    let gone = plan.dropped.to_set();
    lemma_compaction_logged(s, plan);
    lemma_compaction_starts(s, disk, vals, horizon, plan, bytes);
    lemma_commit_keeps_underway(staged, Some(m), gone, bytes, disk, vals, upto);
    let c = staged.committed(upto);
    lemma_compaction_completes(c, m, gone, bytes, disk, vals, file);
    let t = c.compacted(plan.old, plan.new, file, plan.entries, gone);
    assert forall|k: Seq<char>| #[trigger] value_of(t.layout, vals, k) == value_of(
        s.layout,
        vals,
        k,
    ) by {
        assert(value_of(c.layout, vals, k) == value_of(staged.layout, vals, k));
    }
}

/// A compaction keeps every value but those that it drops.
pub proof fn lemma_compaction_keeps_put<F>(
    s: State<F>,
    disk: Disk,
    vals: Map<u64, Seq<u8>>,
    horizon: u64,
    plan: PlanModel<F>,
    file: F,
    bytes: Seq<u8>,
    upto: u64,
    lsn: u64,
)
    requires
        healthy(s, disk, vals),
        plans(s, horizon, plan),
        holds_copies(disk, plan, s.layout, bytes),
        s.next_free_id < u64::MAX,
        s.wal.next_lsn + plan.entries.len() + 1 < u64::MAX,
        s.layout.puts.contains_key(lsn),
        disk.contains_key(s.layout.puts[lsn].seg),
        !plan.dropped.contains(lsn),
    ensures
        ({
            let t = compaction_logged(s, plan).committed(upto).compacted(
                plan.old,
                plan.new,
                file,
                plan.entries,
                plan.dropped.to_set(),
            );
            let p = t.layout.puts[lsn];
            &&& t.snapshot().read_put(lsn) == Ok::<Place<F>, ErrorModel>(
                (t.open[p.seg], p.offset, p.len),
            )
            &&& holds(disk.insert(plan.new, bytes).remove(plan.old), p, vals[lsn])
        }),
{
    let l = s.layout;
    let es = plan.entries;
    let gone = plan.dropped.to_set();
    let c = compaction_logged(s, plan).committed(upto);
    let t = c.compacted(plan.old, plan.new, file, es, gone);
    lemma_compaction_keeps_healthy(s, disk, vals, horizon, plan, file, bytes, upto);
    lemma_compaction_starts(s, disk, vals, horizon, plan, bytes);
    lemma_compaction_logged(s, plan);
    assert(names_puts(c.layout, plan.old, es)) by {
        assert(names_puts(l, plan.old, es));
    }
    lemma_repointed(c.layout, plan.old, plan.new, es);
    let moved = c.layout.repoint_all(es, plan.new);
    assert(!gone.contains(lsn));
    assert(moved.puts.dom().contains(lsn));
    assert(t.layout.puts.contains_key(lsn));
    lemma_entry_of(es, lsn);
    if l.puts[lsn].seg == plan.old {
        assert(!dropped(l, plan.old, horizon, lsn));
        assert(kept(l, plan.old, horizon, lsn));
        assert(plan.places.contains((l.puts[lsn].offset, lsn)));
        let j = choose|j: int|
            0 <= j < plan.places.len() && plan.places[j] == (l.puts[lsn].offset, lsn);
        assert(es[j].lsn == lsn);
        assert(entry_of(es, lsn) is Some);
    } else if let Some(e) = entry_of(es, lsn) {
        let j = choose|j: int| 0 <= j < es.len() && #[trigger] es[j] == e;
        assert(put_in(l, plan.old, es[j].lsn));
    }
}

/// A compaction keeps every value that was put after the horizon, be it
/// overwritten or not: a follower that lags behind may still ask for it.
pub proof fn lemma_compaction_keeps_recent<F>(
    s: State<F>,
    disk: Disk,
    vals: Map<u64, Seq<u8>>,
    horizon: u64,
    plan: PlanModel<F>,
    file: F,
    bytes: Seq<u8>,
    upto: u64,
    lsn: u64,
)
    requires
        healthy(s, disk, vals),
        plans(s, horizon, plan),
        holds_copies(disk, plan, s.layout, bytes),
        s.next_free_id < u64::MAX,
        s.wal.next_lsn + plan.entries.len() + 1 < u64::MAX,
        s.layout.puts.contains_key(lsn),
        disk.contains_key(s.layout.puts[lsn].seg),
        lsn > horizon,
    ensures
        ({
            let t = compaction_logged(s, plan).committed(upto).compacted(
                plan.old,
                plan.new,
                file,
                plan.entries,
                plan.dropped.to_set(),
            );
            let p = t.layout.puts[lsn];
            &&& t.snapshot().read_put(lsn) == Ok::<Place<F>, ErrorModel>(
                (t.open[p.seg], p.offset, p.len),
            )
            &&& holds(disk.insert(plan.new, bytes).remove(plan.old), p, vals[lsn])
        }),
{
    if plan.dropped.contains(lsn) {
        assert(dropped(s.layout, plan.old, horizon, lsn));
    }
    lemma_compaction_keeps_put(s, disk, vals, horizon, plan, file, bytes, upto, lsn);
}

proof fn lemma_entry_ends(l: Layout, places: Seq<(u64, u64)>, j: int)
    requires
        0 <= j < places.len(),
        places_len(l, places, places.len() as int) <= u64::MAX,
    ensures
        places_len(l, places, j) + l.puts[places[j].1].len <= u64::MAX,
{
    lemma_places_len_grows(l, places, j + 1, places.len() as int);
}

/// `t` is a store opened from the log `file`, past the mark `floor`, with the
/// files of all segments that the log knows, and numbers new segments above
/// those.
pub open spec fn reopened<F>(t: State<F>, file: Seq<u8>, floor: u64) -> bool {
    let lens = committed_lengths(committed_part(scan_of(file)));
    &&& t == (State {
        next_free_id: t.next_free_id,
        open: t.open,
        ..opened_state::<F>(file, t.max, floor)
    })
    &&& high_water_of(scan_of(file)) < u64::MAX
    &&& floor < u64::MAX
    &&& forall|id: u64| #[trigger]
        lens.contains_key(id) ==> id < t.next_free_id && t.open.contains_key(id)
}

/// Everything in the log is committed and durable.
pub open spec fn all_committed<F>(s: State<F>) -> bool {
    &&& s.wal.buffered.len() == 0
    &&& s.wal.durable.len() > 0
    &&& s.wal.durable.last().1 is Commit
}

/// Crash recovery gives back a store that is in order, with every committed
/// value and aggregate. `s` has everything committed. Then more is logged and
/// written, without another commit, and the log's end is damaged; `after` are
/// the files that are left. Opening cuts them to their committed lengths.
///
/// A compaction that was committed and not completed leaves the log as it is
/// when it is completed, so the crash may come in between.
pub proof fn lemma_reopened_is_healthy<F>(
    s: State<F>,
    disk: Disk,
    vals: Map<u64, Seq<u8>>,
    later: Seq<Logged>,
    damaged: Seq<u8>,
    rest: Seq<u8>,
    after: Disk,
    floor: u64,
    t: State<F>,
)
    requires
        healthy(s, disk, vals),
        all_committed(s),
        log_encodable(s.wal.durable + later),
        forall|i: int|
            0 <= i < later.len() ==> !((#[trigger] later[i]).1 is Commit) && later[i].0
                >= s.wal.next_lsn,
        damaged.len() <= BLOCK_SIZE,
        damaged.len() == BLOCK_SIZE ==> logged_of(damaged) is None,
        damaged.len() < BLOCK_SIZE ==> rest.len() == 0,
        survives(disk, after, committed_lengths(s.wal.durable)),
        reopened(t, log_bytes(s.wal.durable + later) + damaged + rest, floor),
    ensures
        healthy(t, cut(after, committed_lengths(s.wal.durable)).restrict(disk.dom()), vals),
        forall|k: Seq<char>| #[trigger]
            value_of(t.layout, vals, k) == value_of(s.layout, vals, k),
        t.layout.live == s.layout.live,
        t.layout.index == s.layout.index,
        t.layout.committed_lsn == s.layout.committed_lsn,
        t.wal.log() == s.wal.log(),
{
    let log = s.wal.durable;
    let all = log + later;
    lemma_scan_stops_at_damage(all, damaged, rest);
    lemma_last_commit(log, later);
    assert(s.wal.log() =~= log);
    let r = recovered(log);
    let l = s.layout;
    let lens = committed_lengths(log);
    assert(t.wal.log() =~= log);
    assert(t.layout == r);
    let disk2 = cut(after, lens).restrict(disk.dom());
    assert(faithful(t, None)) by {
        assert forall|i: int| 0 <= i < log.len() implies lsns_below(
            #[trigger] log[i],
            t.wal.next_lsn,
        ) by {
            assert(all[all.len() - 1].0 < t.wal.next_lsn);
            assert(log[i].0 < t.wal.next_lsn) by {
                if i < log.len() - 1 {
                    assert(log[i].0 < log[log.len() - 1].0);
                }
                assert(log[log.len() - 1].0 < s.wal.next_lsn);
                if later.len() > 0 {
                    assert(all[all.len() - 1] == later[later.len() - 1]);
                }
            }
            if let RecordModel::SegmentRemap { entries, .. } = log[i].1 {
                assert(entries_below(entries, log[i].0));
                assert(entries_below(entries, t.wal.next_lsn));
            }
        }
        lemma_replayed_tracks(
            log,
            l,
            s.wal.next_lsn,
            s.next_free_id,
            t.wal.next_lsn,
            t.next_free_id,
        );
    }
    lemma_replayed_covers(log, l, s.next_free_id, t.next_free_id);
    assert(sound(disk2, r, vals)) by {
        assert forall|x: u64| #[trigger]
            r.puts.contains_key(x) && disk2.contains_key(r.puts[x].seg) implies vals.contains_key(
            x,
        ) && holds(disk2, r.puts[x], vals[x]) by {
            let seg = r.puts[x].seg;
            assert(disk.contains_key(seg));
            assert(!was_replaced(log, seg));
            assert(l.puts.contains_key(x));
            lemma_cut_keeps_value(disk, after, lens, r.puts[x], vals[x]);
        }
        assert forall|i: int| 0 <= i < r.index.len() implies r.puts.contains_key(
            (#[trigger] r.index[i]).1.lsn,
        ) && r.puts[r.index[i].1.lsn] == put_at(r.index[i].0, r.index[i].1)
            && disk2.contains_key(r.index[i].1.seg) by {
            assert(l.puts.contains_key(l.index[i].1.lsn));
            lemma_in_use_survives(s, disk, after, l.index[i].1.seg);
        }
        assert forall|x: u64| #[trigger]
            r.puts.contains_key(x) && r.puts[x].seg == r.active_id implies r.puts[x].offset
            + r.puts[x].len <= r.active_offset && disk2.contains_key(r.active_id) by {
            assert(l.puts.contains_key(x));
            lemma_in_use_survives(s, disk, after, l.active_id);
        }
    }
    assert(in_use(t, disk2)) by {
        assert forall|id: u64| disk.contains_key(id) implies #[trigger] disk2.contains_key(id) by {
            lemma_in_use_survives(s, disk, after, id);
        }
        assert forall|id: u64| #[trigger] disk2.contains_key(id) implies t.open.contains_key(id)
            && (r.sealed.contains(id) || id == r.active_id) by {
            assert(disk.contains_key(id));
            assert(lens.contains_key(id));
        }
        assert forall|id: u64| #[trigger] r.sealed.contains(id) implies disk2.contains_key(id) by {
            assert(disk.contains_key(id));
        }
    }
}

proof fn lemma_in_use_survives<F>(s: State<F>, disk: Disk, after: Disk, id: u64)
    requires
        in_use(s, disk),
        within_lengths(s, None),
        survives(disk, after, committed_lengths(s.wal.log())),
        disk.contains_key(id),
    ensures
        after.contains_key(id),
{
}

proof fn lemma_last_commit(log: Seq<Logged>, later: Seq<Logged>)
    requires
        log.len() > 0,
        log.last().1 is Commit,
        forall|i: int| 0 <= i < later.len() ==> !((#[trigger] later[i]).1 is Commit),
    ensures
        committed_part(log + later) == log,
{
    let all = log + later;
    let n = log.len();
    lemma_committed_len(all);
    assert(all[n - 1] == log.last());
    if committed_len(all) > n {
        let k = committed_len(all) - 1;
        assert(all[k] == later[k - n]);
    } else if committed_len(all) < n {
        assert(!(all[n - 1].1 is Commit));
    }
    assert(committed_part(all) =~= log);
}

} // verus!
