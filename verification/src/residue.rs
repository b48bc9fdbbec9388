//! What recovery knows beyond the store that wrote the log: values that a
//! compaction dropped. They are in segments that were replaced, so nothing
//! reads them.

use vstd::prelude::*;

use crate::durability::{
    entries_below, faithful, lemma_appended_log, lemma_chunk_end, lemma_logged_all_concat,
    lemma_logged_all_one, lemma_moved_below, lemma_none_moved, lemma_none_replaced,
    lemma_planned_is_sealed, lemma_put_faithful, lemma_recovered_puts_below, lemma_swaps_push,
    lemma_tracks_remap, lemma_tracks_swap, settled, tracks, was_replaced, Replacement,
};
use crate::layout::{moved, recovered, swaps, without, Layout, Location};
use crate::replay::{
    lemma_push_contains, lemma_recovered_agg, lemma_recovered_commit, lemma_recovered_put,
    lemma_recovered_remap, lemma_recovered_seal, lemma_recovered_swap, lemma_repoint_all_concat,
    lemma_repoint_all_distinct, lemma_repoint_all_frame, lemma_repoint_all_index,
    lemma_repoint_all_put, lemma_without, untouched,
};
use crate::segment::compact::{
    chunk_end, compact_records, entry_cost, kept, plans, remap_records, PlanModel, REMAP_BUDGET,
    REMAP_KEY_MAX,
};
use crate::state::{agg_record, put_record, State};
use crate::table::{distinct, lemma_put, lookup};
use crate::wal::{EntryModel, Logged, RecordModel};

verus! {

/// The index names the newest put of every key.
pub open spec fn current(l: Layout) -> bool {
    forall|lsn: u64| #[trigger]
        l.puts.contains_key(lsn) ==> lookup(l.index, l.puts[lsn].key) is Some && lsn <= lookup(
            l.index,
            l.puts[lsn].key,
        )->0.lsn
}

/// `es` name puts, each under its key.
pub open spec fn keyed(l: Layout, es: Seq<EntryModel>) -> bool {
    forall|i: int|
        0 <= i < es.len() ==> l.puts.contains_key((#[trigger] es[i]).lsn)
            && l.puts[es[i].lsn].key == es[i].key
}

proof fn lemma_current_put(l: Layout, key: Seq<char>, len: u32, lsn: u64)
    requires
        distinct(l.index),
        current(l),
        forall|x: u64| #[trigger] l.puts.contains_key(x) ==> x < lsn,
    ensures
        current(l.put(key, len, lsn)),
{
    let n = l.put(key, len, lsn);
    let at = Location { seg: l.active_id, offset: l.active_offset, len, lsn };
    assert forall|x: u64| #[trigger] n.puts.contains_key(x) implies lookup(
        n.index,
        n.puts[x].key,
    ) is Some && x <= lookup(n.index, n.puts[x].key)->0.lsn by {
        lemma_put(l.index, key, at, n.puts[x].key);
        if x != lsn {
            assert(l.puts.contains_key(x));
        }
    }
}

/// Moving values keeps the puts and their keys, and the index current.
proof fn lemma_current_repoint_all(l: Layout, es: Seq<EntryModel>, new: u64)
    requires
        distinct(l.index),
        keyed(l, es),
    ensures
        distinct(l.repoint_all(es, new).index),
        l.repoint_all(es, new).puts.dom() == l.puts.dom(),
        forall|x: u64|
            l.puts.contains_key(x) ==> (#[trigger] l.repoint_all(es, new).puts[x]).key
                == l.puts[x].key,
        current(l) ==> current(l.repoint_all(es, new)),
    decreases es.len(),
{
    if es.len() > 0 {
        let front = es.drop_last();
        let e = es.last();
        assert(keyed(l, front)) by {
            assert forall|i: int| 0 <= i < front.len() implies l.puts.contains_key(
                (#[trigger] front[i]).lsn,
            ) && l.puts[front[i].lsn].key == front[i].key by {
                assert(front[i] == es[i]);
            }
        }
        lemma_current_repoint_all(l, front, new);
        let m = l.repoint_all(front, new);
        let n = l.repoint_all(es, new);
        assert(es[es.len() - 1] == e);
        assert(m.puts.dom().contains(e.lsn));
        assert(n.puts.dom() =~= l.puts.dom());
        let at = Location { seg: new, offset: e.offset, len: e.len, lsn: e.lsn };
        lemma_put(m.index, e.key, at, e.key);
        if current(l) {
            assert forall|x: u64| #[trigger] n.puts.contains_key(x) implies lookup(
                n.index,
                n.puts[x].key,
            ) is Some && x <= lookup(n.index, n.puts[x].key)->0.lsn by {
                assert(m.puts.dom().contains(x));
                assert(m.puts.contains_key(x));
                lemma_put(m.index, e.key, at, n.puts[x].key);
            }
        }
    } else {
        assert(l.repoint_all(es, new) == l);
    }
}

/// A put that recovery finds and the store does not know is in a segment that
/// was replaced; and no segment in use was. What recovery finds in the index
/// is the newest of its key.
pub open spec fn accounts(log: Seq<Logged>, l: Layout, o: Option<Replacement>) -> bool {
    &&& forall|lsn: u64| #[trigger]
        recovered(log).puts.contains_key(lsn) ==> settled(l, o).puts.contains_key(lsn)
            || was_replaced(log, recovered(log).puts[lsn].seg)
    &&& forall|id: u64| #[trigger] was_replaced(log, id) ==> !settled(l, o).sealed.contains(id)
    &&& current(recovered(log))
}

proof fn lemma_replaced_push(log: Seq<Logged>, r: Logged)
    ensures
        forall|id: u64| #[trigger]
            was_replaced(log.push(r), id) <==> was_replaced(log, id) || (r.1 matches
                RecordModel::SegmentSwap { old_segment_id, .. } && old_segment_id == id),
{
    let after = log.push(r);
    lemma_swaps_push(log, r);
    assert forall|id: u64| #[trigger] was_replaced(after, id) <==> was_replaced(log, id) || (
    r.1 matches RecordModel::SegmentSwap { old_segment_id, .. } && old_segment_id == id) by {
        if was_replaced(log, id) {
            let i = choose|i: int| 0 <= i < swaps(log).len() && (#[trigger] swaps(log)[i]).0 == id;
            assert(swaps(after)[i] == swaps(log)[i]);
        }
        if was_replaced(after, id) {
            let i = choose|i: int|
                0 <= i < swaps(after).len() && (#[trigger] swaps(after)[i]).0 == id;
            if i < swaps(log).len() {
                assert(swaps(log)[i] == swaps(after)[i]);
            }
        }
        if let RecordModel::SegmentSwap { old_segment_id, .. } = r.1 {
            assert(swaps(after)[swaps(log).len() as int].0 == old_segment_id);
        }
    }
}

/// The puts known after values are moved.
proof fn lemma_repointed_dom(a: Layout, b: Layout, es: Seq<EntryModel>, new: u64, lsn: u64)
    ensures
        a.repoint_all(es, new).puts.contains_key(lsn) && !b.repoint_all(
            es,
            new,
        ).puts.contains_key(lsn) ==> a.puts.contains_key(lsn) && !b.puts.contains_key(lsn)
            && a.repoint_all(es, new).puts[lsn] == a.puts[lsn],
    decreases es.len(),
{
    if es.len() > 0 {
        lemma_repointed_dom(a, b, es.drop_last(), new, lsn);
    }
}

pub(crate) proof fn lemma_accounts_put(
    log: Seq<Logged>,
    l: Layout,
    next_lsn: u64,
    next_id: u64,
    o: Option<Replacement>,
    lsn: u64,
    key: Seq<char>,
    len: u32,
    stripe: u64,
)
    requires
        tracks(log, l, next_lsn, next_id, o),
        accounts(log, l, o),
        next_lsn <= lsn < u64::MAX,
    ensures
        accounts(
            log.push((lsn, RecordModel::Put { key, len, stripe_id: stripe })),
            l.put(key, len, lsn),
            o,
        ),
{
    let r = (lsn, RecordModel::Put { key, len, stripe_id: stripe });
    let after = log.push(r);
    lemma_replaced_push(log, r);
    let pairs = swaps(log);
    assert forall|i: int| 0 <= i < pairs.len() implies untouched(
        moved(log, (#[trigger] pairs[i]).1),
        lsn,
    ) by {
        lemma_moved_below(log, pairs[i].1, next_lsn);
    }
    lemma_recovered_put(log, lsn, key, len, stripe);
    lemma_recovered_puts_below(log, next_lsn);
    if let Some(m) = o {
        lemma_repoint_all_put(l, m.entries, m.new, key, len, lsn);
        lemma_repoint_all_distinct(l, m.entries, m.new);
    }
    assert(current(recovered(log).seen(lsn))) by {
        assert forall|x: u64| #[trigger] recovered(log).seen(lsn).puts.contains_key(x) implies
            lookup(recovered(log).index, recovered(log).puts[x].key) is Some && x <= lookup(
            recovered(log).index,
            recovered(log).puts[x].key,
        )->0.lsn by {
            assert(recovered(log).puts.contains_key(x));
        }
    }
    lemma_current_put(recovered(log).seen(lsn), key, len, lsn);
    let s = settled(l, o);
    let s2 = settled(l.put(key, len, lsn), o);
    assert(s2.puts =~= s.put(key, len, lsn).puts);
    assert(s2.sealed == s.sealed);
    assert forall|x: u64| #[trigger] recovered(after).puts.contains_key(x) implies
        s2.puts.contains_key(x) || was_replaced(after, recovered(after).puts[x].seg) by {
        if x != lsn {
            assert(recovered(log).puts.contains_key(x));
        }
    }
}

pub(crate) proof fn lemma_accounts_other(
    log: Seq<Logged>,
    l: Layout,
    l2: Layout,
    o: Option<Replacement>,
    r: Logged,
)
    requires
        accounts(log, l, o),
        r.1 is AggDelta || r.1 is Commit,
        l2.index == l.index,
        l2.puts == l.puts,
        l2.sealed == l.sealed,
    ensures
        accounts(log.push(r), l2, o),
{
    lemma_replaced_push(log, r);
    match r.1 {
        RecordModel::Commit { lsn } => {
            lemma_recovered_commit(log, r.0, lsn);
        },
        _ => {
            lemma_recovered_agg(log, r);
        },
    }
    if let Some(m) = o {
        lemma_repoint_all_frame(l, m.entries, m.new);
        lemma_repoint_all_frame(l2, m.entries, m.new);
        lemma_repoint_all_index(l, l2, m.entries, m.new);
    }
    let after = log.push(r);
    assert forall|x: u64| #[trigger] recovered(after).puts.contains_key(x) implies settled(
        l2,
        o,
    ).puts.contains_key(x) || was_replaced(after, recovered(after).puts[x].seg) by {
        assert(recovered(log).puts.contains_key(x));
    }
}

pub(crate) proof fn lemma_accounts_seal(
    log: Seq<Logged>,
    l: Layout,
    o: Option<Replacement>,
    lsn: u64,
    next: u64,
)
    requires
        !was_replaced(log, l.active_id),
        accounts(log, l, o),
    ensures
        accounts(
            log.push(
                (lsn, RecordModel::SegmentSeal { segment_id: l.active_id, next_segment_id: next }),
            ),
            l.seal(l.active_id, next),
            o,
        ),
{
    let id = l.active_id;
    let r = (lsn, RecordModel::SegmentSeal { segment_id: id, next_segment_id: next });
    let after = log.push(r);
    let n = l.seal(id, next);
    lemma_replaced_push(log, r);
    lemma_recovered_seal(log, lsn, id, next);
    if let Some(m) = o {
        lemma_repoint_all_frame(l, m.entries, m.new);
        lemma_repoint_all_frame(n, m.entries, m.new);
        lemma_repoint_all_index(l, n, m.entries, m.new);
    }
    assert forall|x: u64| #[trigger] recovered(after).puts.contains_key(x) implies settled(
        n,
        o,
    ).puts.contains_key(x) || was_replaced(after, recovered(after).puts[x].seg) by {
        assert(recovered(log).puts.contains_key(x));
    }
    assert forall|z: u64| #[trigger] was_replaced(after, z) implies !settled(
        n,
        o,
    ).sealed.contains(z) by {
        assert(was_replaced(log, z));
        assert(!settled(l, o).sealed.contains(z));
        lemma_push_contains(l.sealed, id, z);
        if let Some(m) = o {
            lemma_push_contains(without(l.sealed.push(id), m.old), m.new, z);
            lemma_without(l.sealed.push(id), m.old, z);
            lemma_push_contains(without(l.sealed, m.old), m.new, z);
            lemma_without(l.sealed, m.old, z);
        }
    }
}

pub(crate) proof fn lemma_accounts_swap(
    log: Seq<Logged>,
    l: Layout,
    next_lsn: u64,
    next_id: u64,
    lsn: u64,
    old: u64,
    new: u64,
)
    requires
        tracks(log, l, next_lsn, next_id, None),
        accounts(log, l, None),
        next_id <= new,
        old != new,
    ensures
        accounts(
            log.push((lsn, RecordModel::SegmentSwap { old_segment_id: old, new_segment_id: new })),
            l,
            Some(Replacement { old, new, entries: Seq::empty() }),
        ),
{
    let r = (lsn, RecordModel::SegmentSwap { old_segment_id: old, new_segment_id: new });
    let after = log.push(r);
    let o = Some(Replacement { old, new, entries: Seq::<EntryModel>::empty() });
    lemma_replaced_push(log, r);
    lemma_none_moved(log, next_id, new);
    lemma_none_replaced(log, next_id, new);
    lemma_recovered_swap(log, lsn, old, new);
    assert(l.repoint_all(Seq::empty(), new) == l);
    assert forall|x: u64| #[trigger] recovered(after).puts.contains_key(x) implies settled(
        l,
        o,
    ).puts.contains_key(x) || was_replaced(after, recovered(after).puts[x].seg) by {
        assert(recovered(log).puts.contains_key(x));
    }
    assert forall|z: u64| #[trigger] was_replaced(after, z) implies !settled(
        l,
        o,
    ).sealed.contains(z) by {
        lemma_push_contains(without(l.sealed, old), new, z);
        lemma_without(l.sealed, old, z);
        if was_replaced(log, z) {
            assert(!settled(l, None).sealed.contains(z));
        }
    }
}

pub(crate) proof fn lemma_accounts_remap(
    log: Seq<Logged>,
    l: Layout,
    next_lsn: u64,
    next_id: u64,
    m: Replacement,
    lsn: u64,
    es: Seq<EntryModel>,
)
    requires
        tracks(log, l, next_lsn, next_id, Some(m)),
        accounts(log, l, Some(m)),
        keyed(l, m.entries),
        keyed(l, es),
    ensures
        accounts(
            log.push((lsn, RecordModel::SegmentRemap { new_segment_id: m.new, entries: es })),
            l,
            Some(Replacement { entries: m.entries + es, ..m }),
        ),
{
    let r = (lsn, RecordModel::SegmentRemap { new_segment_id: m.new, entries: es });
    let after = log.push(r);
    let o = Some(Replacement { entries: m.entries + es, ..m });
    lemma_replaced_push(log, r);
    lemma_recovered_remap(log, lsn, m.new, es);
    lemma_repoint_all_concat(l, m.entries, es, m.new);
    let a = l.repoint_all(m.entries, m.new);
    lemma_repoint_all_frame(l, m.entries, m.new);
    lemma_repoint_all_frame(a, es, m.new);
    let rec = recovered(log).seen(lsn);
    lemma_repoint_all_index(recovered(log), rec, es, m.new);
    lemma_current_repoint_all(l, m.entries, m.new);
    assert(keyed(rec, es)) by {
        assert forall|i: int| 0 <= i < es.len() implies rec.puts.contains_key(
            (#[trigger] es[i]).lsn,
        ) && rec.puts[es[i].lsn].key == es[i].key by {
            assert(l.puts.dom().contains(es[i].lsn));
            assert(a.puts.dom().contains(es[i].lsn));
            assert(settled(l, Some(m)).puts.contains_key(es[i].lsn));
        }
    }
    assert(current(rec)) by {
        assert forall|x: u64| #[trigger] rec.puts.contains_key(x) implies lookup(
            rec.index,
            rec.puts[x].key,
        ) is Some && x <= lookup(rec.index, rec.puts[x].key)->0.lsn by {
            assert(recovered(log).puts.contains_key(x));
        }
    }
    lemma_current_repoint_all(rec, es, m.new);
    assert forall|x: u64| #[trigger] recovered(after).puts.contains_key(x) implies settled(
        l,
        o,
    ).puts.contains_key(x) || was_replaced(after, recovered(after).puts[x].seg) by {
        lemma_repointed_dom(rec, a, es, m.new, x);
        if !settled(l, o).puts.contains_key(x) {
            assert(recovered(log).puts.contains_key(x));
        }
    }
}

/// The values in `gone` were in the segment that is replaced, and stay there.
pub open spec fn left_behind(l: Layout, m: Replacement, gone: Set<u64>) -> bool {
    forall|lsn: u64| #[trigger]
        gone.contains(lsn) && l.repoint_all(m.entries, m.new).puts.contains_key(lsn)
            ==> l.repoint_all(m.entries, m.new).puts[lsn].seg == m.old
}

pub(crate) proof fn lemma_accounts_settle(
    log: Seq<Logged>,
    l: Layout,
    next_lsn: u64,
    next_id: u64,
    m: Replacement,
    gone: Set<u64>,
)
    requires
        tracks(log, l, next_lsn, next_id, Some(m)),
        accounts(log, l, Some(m)),
        left_behind(l, m, gone),
    ensures
        accounts(log, l.repoint_all(m.entries, m.new).forget(gone).replace(m.old, m.new), None),
{
    let a = l.repoint_all(m.entries, m.new);
    let n = a.forget(gone).replace(m.old, m.new);
    let s = settled(l, Some(m));
    assert(n.sealed == s.sealed);
    assert(swaps(log)[swaps(log).len() - 1].0 == m.old);
    assert(was_replaced(log, m.old));
    assert forall|x: u64| #[trigger] recovered(log).puts.contains_key(x) implies n.puts.contains_key(
        x,
    ) || was_replaced(log, recovered(log).puts[x].seg) by {
        if s.puts.contains_key(x) && gone.contains(x) {
            assert(recovered(log).puts[x] == s.puts[x]);
        }
    }
    assert forall|z: u64| #[trigger] was_replaced(log, z) implies !settled(
        n,
        None,
    ).sealed.contains(z) by {
        assert(!s.sealed.contains(z));
    }
}

/// What recovery knows beyond the store lies in replaced segments.
pub open spec fn accounted<F>(s: State<F>, o: Option<Replacement>) -> bool {
    accounts(s.wal.log(), s.layout, o)
}

/// A store in which nothing is stored yet.
pub proof fn lemma_empty_accounted<F>(s: State<F>)
    requires
        s.layout == Layout::empty(),
        s.wal.log().len() == 0,
    ensures
        accounted(s, None),
{
    assert(s.wal.log() =~= Seq::empty());
    assert(recovered(s.wal.log()) == Layout::empty());
}

pub(crate) proof fn lemma_seal_accounted<F>(s: State<F>, o: Option<Replacement>)
    requires
        !was_replaced(s.wal.log(), s.layout.active_id),
        accounted(s, o),
        s.wal.next_lsn < u64::MAX,
    ensures
        accounted(s.seal_active(), o),
{
    lemma_appended_log(s, s.seal_record(), s.wal.next_lsn);
    lemma_accounts_seal(
        s.wal.log(),
        s.layout,
        o,
        s.wal.next_lsn,
        s.next_free_id,
    );
}

/// A put adds nothing that recovery knows beyond the store.
pub proof fn lemma_put_accounted<F>(
    s: State<F>,
    o: Option<Replacement>,
    opened: Option<F>,
    key: Seq<char>,
    len: u32,
)
    requires
        faithful(s, o),
        accounted(s, o),
        s.has_room(len as nat),
    ensures
        accounted(s.before_put(len as nat).with_active(opened).staged(key, len), o),
{
    if s.seal_due(len as nat) {
        lemma_seal_accounted(s, o);
    }
    lemma_put_faithful(s, o, opened, key, len);
    let ready = s.before_put(len as nat).with_active(opened);
    assert(accounted(ready, o));
    let lsn = ready.wal.next_lsn;
    let put = put_record(key, len, lsn);
    let agg = agg_record(key, len);
    let mid = ready.logged(put, lsn);
    lemma_appended_log(ready, put, lsn);
    lemma_accounts_put(
        ready.wal.log(),
        ready.layout,
        lsn,
        ready.next_free_id,
        o,
        lsn,
        key,
        len,
        lsn,
    );
    lemma_appended_log(mid, agg, (lsn + 1) as u64);
    lemma_replaced_push(ready.wal.log(), (lsn, put));
    lemma_replaced_push(mid.wal.log(), ((lsn + 1) as u64, agg));
    let stored = ready.layout.put(key, len, lsn);
    lemma_accounts_other(mid.wal.log(), stored, stored, o, ((lsn + 1) as u64, agg));
    let done = State {
        layout: stored,
        dirty: ready.dirty.insert(ready.layout.active_id),
        ..mid.logged(agg, (lsn + 1) as u64)
    };
    assert(accounted(done, o));
    if len > ready.max {
        lemma_seal_accounted(done, o);
    }
}

/// A commit adds nothing that recovery knows beyond the store.
pub proof fn lemma_commit_accounted<F>(s: State<F>, o: Option<Replacement>, upto: u64)
    requires
        accounted(s, o),
        s.wal.next_lsn < u64::MAX,
    ensures
        accounted(s.committed(upto), o),
{
    let block = s.wal.next_lsn;
    let rec = RecordModel::Commit { lsn: upto };
    let t = s.committed(upto);
    lemma_appended_log(s, rec, block);
    lemma_accounts_other(s.wal.log(), s.layout, t.layout, o, (block, rec));
    assert(t.wal.log() =~= s.wal.log().push((block, rec)));
}

proof fn lemma_remaps_accounted<F>(s: State<F>, m: Replacement, es: Seq<EntryModel>, i: int)
    requires
        0 <= i <= es.len(),
        m.entries == es.take(i),
        faithful(s, Some(m)),
        accounted(s, Some(m)),
        s.wal.next_lsn + (es.len() - i) <= u64::MAX,
        entries_below(es, s.wal.next_lsn),
        keyed(s.layout, es),
        forall|k: int| 0 <= k < es.len() ==> entry_cost(#[trigger] es[k]) <= REMAP_BUDGET,
    ensures
        accounted(
            s.logged_all(remap_records(m.new, es, i)),
            Some(Replacement { entries: es, ..m }),
        ),
    decreases es.len() - i,
{
    if i >= es.len() {
        assert(es.take(i) =~= es);
        assert(s.logged_all(remap_records(m.new, es, i)) == s);
    } else {
        let j = chunk_end(es, i, REMAP_BUDGET as int);
        assert(entry_cost(es[i]) <= REMAP_BUDGET);
        lemma_chunk_end(es, i, REMAP_BUDGET as int);
        let part = es.subrange(i, j);
        let rec = RecordModel::SegmentRemap { new_segment_id: m.new, entries: part };
        let rest = remap_records(m.new, es, j);
        lemma_logged_all_concat(s, seq![rec], rest);
        lemma_logged_all_one(s, rec);
        let lsn = s.wal.next_lsn;
        let t = s.logged(rec, lsn);
        lemma_appended_log(s, rec, lsn);
        assert(entries_below(part, lsn)) by {
            assert forall|k: int| 0 <= k < part.len() implies (#[trigger] part[k]).lsn < lsn by {
                assert(part[k] == es[i + k]);
            }
        }
        assert(keyed(s.layout, part) && keyed(s.layout, m.entries)) by {
            assert forall|k: int| 0 <= k < part.len() implies s.layout.puts.contains_key(
                (#[trigger] part[k]).lsn,
            ) && s.layout.puts[part[k].lsn].key == part[k].key by {
                assert(part[k] == es[i + k]);
            }
            assert forall|k: int| 0 <= k < i implies s.layout.puts.contains_key(
                (#[trigger] m.entries[k]).lsn,
            ) && s.layout.puts[m.entries[k].lsn].key == m.entries[k].key by {
                assert(m.entries[k] == es[k]);
            }
        }
        lemma_tracks_remap(s.wal.log(), s.layout, lsn, s.next_free_id, m, lsn, part);
        lemma_accounts_remap(s.wal.log(), s.layout, lsn, s.next_free_id, m, lsn, part);
        assert(m.entries + part =~= es.take(j));
        let m2 = Replacement { entries: es.take(j), ..m };
        assert(faithful(t, Some(m2)));
        assert(accounted(t, Some(m2)));
        assert(entries_below(es, t.wal.next_lsn));
        lemma_remaps_accounted(t, m2, es, j);
    }
}

/// Logging a compaction adds nothing that recovery knows beyond the store,
/// once the compaction has taken effect.
pub proof fn lemma_compact_stage_accounted<F>(s: State<F>, horizon: u64, plan: PlanModel<F>)
    requires
        faithful(s, None),
        accounted(s, None),
        plans(s, horizon, plan),
        s.next_free_id < u64::MAX,
        s.wal.next_lsn + plan.entries.len() + 1 <= u64::MAX,
    ensures
        accounted(
            State { next_free_id: (s.next_free_id + 1) as u64, ..s }.logged_all(
                compact_records(plan.old, plan.new, plan.entries),
            ),
            Some(Replacement { old: plan.old, new: plan.new, entries: plan.entries }),
        ),
{
    let t = State { next_free_id: (s.next_free_id + 1) as u64, ..s };
    let es = plan.entries;
    let l = s.layout;
    let swap = RecordModel::SegmentSwap { old_segment_id: plan.old, new_segment_id: plan.new };
    lemma_planned_is_sealed(s, horizon, plan);
    let lsn = s.wal.next_lsn;
    lemma_appended_log(t, swap, lsn);
    lemma_tracks_swap(
        s.wal.log(),
        l,
        lsn,
        s.next_free_id,
        lsn,
        plan.old,
        plan.new,
        t.next_free_id,
    );
    lemma_accounts_swap(s.wal.log(), l, lsn, s.next_free_id, lsn, plan.old, plan.new);
    let u = t.logged(swap, lsn);
    let m = Replacement { old: plan.old, new: plan.new, entries: Seq::empty() };
    assert(faithful(u, Some(m)));
    assert(accounted(u, Some(m)));
    lemma_logged_all_one(t, swap);
    lemma_logged_all_concat(t, seq![swap], remap_records(plan.new, es, 0));
    assert forall|k: int| 0 <= k < es.len() implies (#[trigger] es[k]).lsn < u.wal.next_lsn by {
        assert(kept(l, plan.old, horizon, plan.places[k].1));
        assert(l.puts.contains_key(es[k].lsn));
    }
    assert forall|k: int| 0 <= k < es.len() implies entry_cost(#[trigger] es[k]) <= REMAP_BUDGET by {
        let place = plan.places[k];
        assert(vstd::utf8::encode_utf8(l.puts[place.1].key).len() <= REMAP_KEY_MAX);
    }
    assert(es.take(0) =~= Seq::<EntryModel>::empty());
    lemma_remaps_accounted(u, m, es, 0);
}

/// Completing a logged compaction that forgets nothing but values left in the
/// replaced segment adds nothing that recovery knows beyond the store.
pub proof fn lemma_compact_commit_accounted<F>(
    s: State<F>,
    m: Replacement,
    file: F,
    gone: Set<u64>,
)
    requires
        faithful(s, Some(m)),
        accounted(s, Some(m)),
        left_behind(s.layout, m, gone),
    ensures
        accounted(s.compacted(m.old, m.new, file, m.entries, gone), None),
{
    lemma_accounts_settle(s.wal.log(), s.layout, s.wal.next_lsn, s.next_free_id, m, gone);
}

} // verus!
