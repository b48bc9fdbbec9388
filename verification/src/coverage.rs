//! Where recovery cuts segments off: the committed length of a segment takes
//! in every value there, so cutting it to that length loses nothing that was
//! committed.

use vstd::prelude::*;

use crate::durability::{
    lemma_appended_log, lemma_chunk_end, lemma_logged_all_concat, lemma_logged_all_one,
    record_ids_below, was_replaced, Replacement,
};
use crate::layout::{
    committed_lengths, entries_end, moved, played, played_lengths, recovered, replaced_lengths,
    swaps, without, Layout, PutModel,
};
use crate::replay::{agree, lemma_push_contains, lemma_without};
use crate::residue::accounts;
use crate::segment::compact::{
    chunk_end, compact_records, entry_cost, kept, plans, remap_records, PlanModel, REMAP_BUDGET,
};
use crate::state::{agg_record, put_record, State};
use crate::table::distinct;
use crate::values::{
    entry_of, holds, indexed, lemma_entry_of, lemma_repointed, names_puts, Disk,
};
use crate::wal::{EntryModel, Logged, RecordModel};

verus! {

/// The value at `p` ends within the length of its segment.
pub open spec fn ends_within(lens: Map<u64, u64>, p: PutModel) -> bool {
    lens.contains_key(p.seg) && p.offset + p.len <= lens[p.seg]
}

/// The segments that a record names have lengths in `lens`.
pub open spec fn ids_within(rec: RecordModel, lens: Map<u64, u64>) -> bool {
    match rec {
        RecordModel::SegmentSeal { segment_id, next_segment_id } => lens.contains_key(segment_id)
            && lens.contains_key(next_segment_id),
        RecordModel::SegmentSwap { old_segment_id, new_segment_id } => lens.contains_key(
            old_segment_id,
        ) && lens.contains_key(new_segment_id),
        RecordModel::SegmentRemap { new_segment_id, .. } => lens.contains_key(new_segment_id),
        _ => true,
    }
}

/// No replacement in `log` is of segment `id`, or by it.
pub open spec fn not_swapped(log: Seq<Logged>, id: u64) -> bool {
    forall|i: int|
        0 <= i < swaps(log).len() ==> (#[trigger] swaps(log)[i]).0 != id && swaps(log)[i].1 != id
}

/// `o` is the last replacement in `log`, with what was moved so far.
pub open spec fn is_last(log: Seq<Logged>, m: Replacement) -> bool {
    &&& swaps(log).len() > 0
    &&& swaps(log).last() == (m.old, m.new)
    &&& forall|i: int| 0 <= i < swaps(log).len() - 1 ==> (#[trigger] swaps(log)[i]).1 != m.new
    &&& moved(log, m.new) == m.entries
}

/// Every value lies within the length that `log` gives its segment, but for
/// those in segments that were replaced. Every segment in use has a length,
/// and segments from `next_id` on are new.
pub open spec fn covers(log: Seq<Logged>, l: Layout, next_id: u64, o: Option<Replacement>) -> bool {
    &&& played(log).active_id == l.active_id
    &&& played(log).active_offset == l.active_offset
    &&& l.active_id < next_id
    &&& forall|i: int|
        0 <= i < log.len() ==> record_ids_below((#[trigger] log[i]).1, next_id) && ids_within(
            log[i].1,
            committed_lengths(log),
        )
    &&& forall|id: u64| #[trigger] committed_lengths(log).contains_key(id) ==> id < next_id
    &&& forall|id: u64| #[trigger] played_lengths(log).contains_key(id) ==> id < next_id
    &&& played_lengths(log).contains_key(l.active_id) ==> played_lengths(log)[l.active_id]
        == l.active_offset
    &&& committed_lengths(log).contains_key(l.active_id)
    &&& forall|id: u64| #[trigger]
        l.sealed.contains(id) ==> committed_lengths(log).contains_key(id)
    &&& not_swapped(log, l.active_id)
    &&& forall|lsn: u64| #[trigger]
        l.puts.contains_key(lsn) ==> {
            let p = l.puts[lsn];
            &&& p.seg < next_id
            &&& p.seg == l.active_id ==> p.offset + p.len <= l.active_offset
            &&& was_replaced(log, p.seg) || ends_within(committed_lengths(log), p)
        }
    &&& o matches Some(m) ==> is_last(log, m) && m.old != l.active_id && m.new != l.active_id
}

/// The lengths before replacements.
spec fn all_lengths(log: Seq<Logged>) -> Map<u64, u64> {
    let l = played(log);
    let lens = played_lengths(log);
    if lens.contains_key(l.active_id) {
        lens
    } else {
        lens.insert(l.active_id, l.active_offset)
    }
}

proof fn lemma_lengths_insert(
    lens: Map<u64, u64>,
    log: Seq<Logged>,
    pairs: Seq<(u64, u64)>,
    id: u64,
    n: u64,
)
    requires
        forall|i: int| 0 <= i < pairs.len() ==> (#[trigger] pairs[i]).0 != id && pairs[i].1 != id,
    ensures
        replaced_lengths(lens.insert(id, n), log, pairs) == replaced_lengths(
            lens,
            log,
            pairs,
        ).insert(id, n),
    decreases pairs.len(),
{
    if pairs.len() > 0 {
        let front = pairs.drop_last();
        assert forall|i: int| 0 <= i < front.len() implies (#[trigger] front[i]).0 != id
            && front[i].1 != id by {
            assert(front[i] == pairs[i]);
        }
        lemma_lengths_insert(lens, log, front, id, n);
        let (old, new) = pairs.last();
        assert(pairs[pairs.len() - 1] == (old, new));
        let e = entries_end(moved(log, new));
        let m = replaced_lengths(lens, log, front);
        assert(m.insert(id, n).insert(new, e).insert(old, 0) =~= m.insert(new, e).insert(
            old,
            0,
        ).insert(id, n));
    }
}

proof fn lemma_lengths_log(
    lens: Map<u64, u64>,
    log: Seq<Logged>,
    log2: Seq<Logged>,
    pairs: Seq<(u64, u64)>,
)
    requires
        forall|i: int|
            0 <= i < pairs.len() ==> moved(log, (#[trigger] pairs[i]).1) == moved(
                log2,
                pairs[i].1,
            ),
    ensures
        replaced_lengths(lens, log, pairs) == replaced_lengths(lens, log2, pairs),
    decreases pairs.len(),
{
    if pairs.len() > 0 {
        let front = pairs.drop_last();
        assert forall|i: int| 0 <= i < front.len() implies moved(log, (#[trigger] front[i]).1)
            == moved(log2, front[i].1) by {
            assert(front[i] == pairs[i]);
        }
        lemma_lengths_log(lens, log, log2, front);
        assert(pairs[pairs.len() - 1] == pairs.last());
    }
}

/// The segments that one more record names are known, like those before.
proof fn lemma_pushed(
    log: Seq<Logged>,
    r: Logged,
    lens: Map<u64, u64>,
    lens2: Map<u64, u64>,
    next_id: u64,
    next_id2: u64,
)
    requires
        forall|i: int|
            0 <= i < log.len() ==> record_ids_below((#[trigger] log[i]).1, next_id) && ids_within(
                log[i].1,
                lens,
            ),
        next_id <= next_id2,
        record_ids_below(r.1, next_id2),
        forall|id: u64| #[trigger] lens.contains_key(id) ==> lens2.contains_key(id),
        ids_within(r.1, lens2),
    ensures
        forall|i: int|
            0 <= i < log.push(r).len() ==> record_ids_below((#[trigger] log.push(r)[i]).1, next_id2)
                && ids_within(log.push(r)[i].1, lens2),
{
    let after = log.push(r);
    assert forall|i: int| 0 <= i < after.len() implies record_ids_below(
        (#[trigger] after[i]).1,
        next_id2,
    ) && ids_within(after[i].1, lens2) by {
        if i < log.len() {
            assert(after[i] == log[i]);
        }
    }
}

/// A segment that was replaced stays so.
proof fn lemma_still_replaced(log: Seq<Logged>, r: Logged)
    ensures
        log.push(r).drop_last() == log,
        forall|id: u64| #[trigger] was_replaced(log, id) ==> was_replaced(log.push(r), id),
{
    let after = log.push(r);
    assert(after.drop_last() =~= log);
    assert forall|id: u64| #[trigger] was_replaced(log, id) implies was_replaced(after, id) by {
        let i = choose|i: int| 0 <= i < swaps(log).len() && (#[trigger] swaps(log)[i]).0 == id;
        assert(swaps(after)[i] == swaps(log)[i]);
    }
}

proof fn lemma_no_swap_from(log: Seq<Logged>, n: u64, id: u64)
    requires
        forall|i: int| 0 <= i < log.len() ==> record_ids_below((#[trigger] log[i]).1, n),
        id >= n,
    ensures
        not_swapped(log, id),
        moved(log, id).len() == 0,
    decreases log.len(),
{
    if log.len() > 0 {
        let front = log.drop_last();
        assert forall|i: int| 0 <= i < front.len() implies record_ids_below(
            (#[trigger] front[i]).1,
            n,
        ) by {
            assert(front[i] == log[i]);
        }
        lemma_no_swap_from(front, n, id);
        assert(record_ids_below(log[log.len() - 1].1, n));
        assert forall|i: int| 0 <= i < swaps(log).len() implies (#[trigger] swaps(log)[i]).0 != id
            && swaps(log)[i].1 != id by {
            if i < swaps(front).len() {
                assert(swaps(log)[i] == swaps(front)[i]);
            }
        }
    }
}

pub(crate) proof fn lemma_covers_put(
    log: Seq<Logged>,
    l: Layout,
    next_id: u64,
    o: Option<Replacement>,
    lsn: u64,
    key: Seq<char>,
    len: u32,
    stripe: u64,
)
    requires
        covers(log, l, next_id, o),
        l.active_offset + len <= u64::MAX,
    ensures
        covers(
            log.push((lsn, RecordModel::Put { key, len, stripe_id: stripe })),
            l.put(key, len, lsn),
            next_id,
            o,
        ),
{
    let r = (lsn, RecordModel::Put { key, len, stripe_id: stripe });
    let after = log.push(r);
    lemma_still_replaced(log, r);
    let n = (l.active_offset + len) as u64;
    let id = l.active_id;
    assert(swaps(after) == swaps(log));
    lemma_lengths_log(all_lengths(after), log, after, swaps(log));
    lemma_lengths_insert(all_lengths(log), log, swaps(log), id, n);
    assert(all_lengths(after) =~= all_lengths(log).insert(id, n));
    assert(committed_lengths(after) == committed_lengths(log).insert(id, n));
    lemma_pushed(log, r, committed_lengths(log), committed_lengths(after), next_id, next_id);
    let m = l.put(key, len, lsn);
    assert forall|x: u64| #[trigger] m.puts.contains_key(x) implies {
        let p = m.puts[x];
        &&& p.seg < next_id
        &&& p.seg == m.active_id ==> p.offset + p.len <= m.active_offset
        &&& was_replaced(after, p.seg) || ends_within(committed_lengths(after), p)
    } by {
        if x != lsn {
            assert(l.puts.contains_key(x));
        }
    }
}

pub(crate) proof fn lemma_covers_other(
    log: Seq<Logged>,
    l: Layout,
    l2: Layout,
    next_id: u64,
    o: Option<Replacement>,
    r: Logged,
)
    requires
        covers(log, l, next_id, o),
        r.1 is AggDelta || r.1 is Commit,
        l2.puts == l.puts,
        l2.sealed == l.sealed,
        l2.active_id == l.active_id,
        l2.active_offset == l.active_offset,
    ensures
        covers(log.push(r), l2, next_id, o),
{
    let after = log.push(r);
    lemma_still_replaced(log, r);
    assert(swaps(after) == swaps(log));
    lemma_lengths_log(all_lengths(log), log, after, swaps(log));
    assert(committed_lengths(after) == committed_lengths(log));
    lemma_pushed(log, r, committed_lengths(log), committed_lengths(log), next_id, next_id);
    assert forall|x: u64| #[trigger] l2.puts.contains_key(x) implies {
        let p = l2.puts[x];
        &&& p.seg < next_id
        &&& p.seg == l2.active_id ==> p.offset + p.len <= l2.active_offset
        &&& was_replaced(after, p.seg) || ends_within(committed_lengths(after), p)
    } by {
        assert(l.puts.contains_key(x));
    }
}

pub(crate) proof fn lemma_covers_seal(
    log: Seq<Logged>,
    l: Layout,
    next_id: u64,
    o: Option<Replacement>,
    lsn: u64,
    next: u64,
)
    requires
        covers(log, l, next_id, o),
        next_id <= next < u64::MAX,
    ensures
        covers(
            log.push(
                (lsn, RecordModel::SegmentSeal { segment_id: l.active_id, next_segment_id: next }),
            ),
            l.seal(l.active_id, next),
            (next + 1) as u64,
            o,
        ),
{
    let id = l.active_id;
    let r = (lsn, RecordModel::SegmentSeal { segment_id: id, next_segment_id: next });
    let after = log.push(r);
    lemma_still_replaced(log, r);
    lemma_no_swap_from(log, next_id, next);
    assert(swaps(after) == swaps(log));
    lemma_lengths_log(all_lengths(after), log, after, swaps(log));
    lemma_lengths_insert(all_lengths(log), log, swaps(log), next, 0);
    assert(!played_lengths(after).contains_key(next));
    assert(all_lengths(after) =~= all_lengths(log).insert(next, 0));
    assert(committed_lengths(after) == committed_lengths(log).insert(next, 0));
    lemma_pushed(
        log,
        r,
        committed_lengths(log),
        committed_lengths(after),
        next_id,
        (next + 1) as u64,
    );
    if let Some(m) = o {
        assert(swaps(log)[swaps(log).len() - 1] == (m.old, m.new));
    }
    let n = l.seal(id, next);
    assert forall|z: u64| #[trigger] n.sealed.contains(z) implies committed_lengths(
        after,
    ).contains_key(z) by {
        lemma_push_contains(l.sealed, id, z);
    }
    assert forall|x: u64| #[trigger] n.puts.contains_key(x) implies {
        let p = n.puts[x];
        &&& p.seg < next + 1
        &&& p.seg == n.active_id ==> p.offset + p.len <= n.active_offset
        &&& was_replaced(after, p.seg) || ends_within(committed_lengths(after), p)
    } by {
        assert(l.puts.contains_key(x));
    }
}

pub(crate) proof fn lemma_covers_swap(
    log: Seq<Logged>,
    l: Layout,
    next_id: u64,
    lsn: u64,
    old: u64,
    new: u64,
    next_id2: u64,
)
    requires
        covers(log, l, next_id, None),
        next_id <= new < next_id2,
        old < next_id2,
        old != l.active_id,
    ensures
        covers(
            log.push((lsn, RecordModel::SegmentSwap { old_segment_id: old, new_segment_id: new })),
            l,
            next_id2,
            Some(Replacement { old, new, entries: Seq::empty() }),
        ),
{
    let r = (lsn, RecordModel::SegmentSwap { old_segment_id: old, new_segment_id: new });
    let after = log.push(r);
    let m = Replacement { old, new, entries: Seq::<EntryModel>::empty() };
    lemma_still_replaced(log, r);
    lemma_no_swap_from(log, next_id, new);
    assert(swaps(after) == swaps(log).push((old, new)));
    assert(swaps(after).drop_last() =~= swaps(log));
    lemma_lengths_log(all_lengths(log), log, after, swaps(log));
    assert(moved(after, new) =~= Seq::<EntryModel>::empty());
    assert(committed_lengths(after) == committed_lengths(log).insert(new, 0).insert(old, 0));
    lemma_pushed(log, r, committed_lengths(log), committed_lengths(after), next_id, next_id2);
    assert(swaps(after)[swaps(log).len() as int].0 == old);
    assert(was_replaced(after, old));
    assert forall|x: u64| #[trigger] l.puts.contains_key(x) implies {
        let p = l.puts[x];
        &&& p.seg < next_id2
        &&& p.seg == l.active_id ==> p.offset + p.len <= l.active_offset
        &&& was_replaced(after, p.seg) || ends_within(committed_lengths(after), p)
    } by {
    }
    assert forall|i: int| 0 <= i < swaps(after).len() implies (#[trigger] swaps(after)[i]).0
        != l.active_id && swaps(after)[i].1 != l.active_id by {
        if i < swaps(log).len() {
            assert(swaps(after)[i] == swaps(log)[i]);
        }
    }
    assert forall|i: int| 0 <= i < swaps(after).len() - 1 implies (#[trigger] swaps(after)[i]).1
        != new by {
        assert(swaps(after)[i] == swaps(log)[i]);
    }
}

pub(crate) proof fn lemma_covers_remap(
    log: Seq<Logged>,
    l: Layout,
    next_id: u64,
    m: Replacement,
    lsn: u64,
    es: Seq<EntryModel>,
)
    requires
        covers(log, l, next_id, Some(m)),
        m.new < next_id,
        forall|lsn: u64| #[trigger] l.puts.contains_key(lsn) ==> l.puts[lsn].seg != m.new,
    ensures
        covers(
            log.push((lsn, RecordModel::SegmentRemap { new_segment_id: m.new, entries: es })),
            l,
            next_id,
            Some(Replacement { entries: m.entries + es, ..m }),
        ),
{
    let r = (lsn, RecordModel::SegmentRemap { new_segment_id: m.new, entries: es });
    let after = log.push(r);
    lemma_still_replaced(log, r);
    assert(swaps(after) == swaps(log));
    let front = swaps(log).drop_last();
    assert forall|i: int| 0 <= i < front.len() implies moved(log, (#[trigger] front[i]).1)
        == moved(after, front[i].1) by {
        assert(front[i] == swaps(log)[i]);
    }
    lemma_lengths_log(all_lengths(log), log, after, front);
    let base = replaced_lengths(all_lengths(log), log, front);
    assert(committed_lengths(log) == base.insert(m.new, entries_end(moved(log, m.new))).insert(
        m.old,
        0,
    ));
    assert(committed_lengths(after) == base.insert(m.new, entries_end(moved(after, m.new))).insert(
        m.old,
        0,
    ));
    lemma_pushed(log, r, committed_lengths(log), committed_lengths(after), next_id, next_id);
    assert forall|x: u64| #[trigger] l.puts.contains_key(x) implies {
        let p = l.puts[x];
        &&& p.seg < next_id
        &&& p.seg == l.active_id ==> p.offset + p.len <= l.active_offset
        &&& was_replaced(after, p.seg) || ends_within(committed_lengths(after), p)
    } by {}
}

proof fn lemma_entries_end(es: Seq<EntryModel>, i: int)
    requires
        0 <= i < es.len(),
        forall|j: int| 0 <= j < es.len() ==> (#[trigger] es[j]).offset + es[j].len <= u64::MAX,
    ensures
        es[i].offset + es[i].len <= entries_end(es),
    decreases es.len(),
{
    assert(es[es.len() - 1].offset + es[es.len() - 1].len <= u64::MAX);
    if i < es.len() - 1 {
        let front = es.drop_last();
        assert forall|j: int| 0 <= j < front.len() implies (#[trigger] front[j]).offset
            + front[j].len <= u64::MAX by {
            assert(front[j] == es[j]);
        }
        lemma_entries_end(front, i);
    }
}

pub(crate) proof fn lemma_covers_settle(
    log: Seq<Logged>,
    l: Layout,
    next_id: u64,
    m: Replacement,
    gone: Set<u64>,
)
    requires
        covers(log, l, next_id, Some(m)),
        m.new < next_id,
        m.old != m.new,
        forall|i: int|
            0 <= i < l.index.len() ==> l.puts.contains_key((#[trigger] l.index[i]).1.lsn)
                && l.puts[l.index[i].1.lsn].key == l.index[i].0 && l.puts[l.index[i].1.lsn].seg
                == l.index[i].1.seg,
        distinct(l.index),
        names_puts(l, m.old, m.entries),
        forall|j: int|
            0 <= j < m.entries.len() ==> (#[trigger] m.entries[j]).offset + m.entries[j].len
                <= u64::MAX,
    ensures
        covers(
            log,
            l.repoint_all(m.entries, m.new).forget(gone).replace(m.old, m.new),
            next_id,
            None,
        ),
{
    let a = l.repoint_all(m.entries, m.new);
    let n = a.forget(gone).replace(m.old, m.new);
    lemma_repointed(l, m.old, m.new, m.entries);
    let lens = committed_lengths(log);
    assert(lens.contains_key(m.new) && lens[m.new] == entries_end(m.entries));
    assert forall|x: u64| #[trigger] n.puts.contains_key(x) implies {
        let p = n.puts[x];
        &&& p.seg < next_id
        &&& p.seg == n.active_id ==> p.offset + p.len <= n.active_offset
        &&& was_replaced(log, p.seg) || ends_within(lens, p)
    } by {
        assert(a.puts.dom().contains(x));
        assert(l.puts.contains_key(x));
        lemma_entry_of(m.entries, x);
        match entry_of(m.entries, x) {
            Some(e) => {
                let j = choose|j: int| 0 <= j < m.entries.len() && #[trigger] m.entries[j] == e;
                lemma_entries_end(m.entries, j);
            },
            None => {},
        }
    }
    assert forall|z: u64| #[trigger] n.sealed.contains(z) implies lens.contains_key(z) by {
        lemma_push_contains(without(l.sealed, m.old), m.new, z);
        lemma_without(l.sealed, m.old, z);
    }
}

/// Every value of the store lies within the length that its log gives its
/// segment, but for those in segments that were replaced.
pub open spec fn within_lengths<F>(s: State<F>, o: Option<Replacement>) -> bool {
    covers(s.wal.log(), s.layout, s.next_free_id, o)
}

/// A store in which nothing is stored yet.
pub proof fn lemma_empty_within_lengths<F>(s: State<F>)
    requires
        s.layout == Layout::empty(),
        s.wal.log().len() == 0,
        s.next_free_id > 0,
    ensures
        within_lengths(s, None),
{
    assert(s.wal.log() =~= Seq::empty());
}

pub(crate) proof fn lemma_seal_within<F>(s: State<F>, o: Option<Replacement>)
    requires
        within_lengths(s, o),
        s.wal.next_lsn < u64::MAX,
        s.next_free_id < u64::MAX,
    ensures
        within_lengths(s.seal_active(), o),
{
    lemma_appended_log(s, s.seal_record(), s.wal.next_lsn);
    lemma_covers_seal(
        s.wal.log(),
        s.layout,
        s.next_free_id,
        o,
        s.wal.next_lsn,
        s.next_free_id,
    );
}

/// A put keeps every value within the length of its segment.
pub proof fn lemma_put_within_lengths<F>(
    s: State<F>,
    o: Option<Replacement>,
    opened: Option<F>,
    key: Seq<char>,
    len: u32,
)
    requires
        within_lengths(s, o),
        s.has_room(len as nat),
    ensures
        within_lengths(s.before_put(len as nat).with_active(opened).staged(key, len), o),
{
    if s.seal_due(len as nat) {
        lemma_seal_within(s, o);
    }
    let ready = s.before_put(len as nat).with_active(opened);
    assert(within_lengths(ready, o));
    let lsn = ready.wal.next_lsn;
    let put = put_record(key, len, lsn);
    let agg = agg_record(key, len);
    let mid = ready.logged(put, lsn);
    lemma_appended_log(ready, put, lsn);
    lemma_covers_put(ready.wal.log(), ready.layout, ready.next_free_id, o, lsn, key, len, lsn);
    lemma_appended_log(mid, agg, (lsn + 1) as u64);
    let stored = ready.layout.put(key, len, lsn);
    lemma_covers_other(
        mid.wal.log(),
        stored,
        stored,
        ready.next_free_id,
        o,
        ((lsn + 1) as u64, agg),
    );
    let done = State {
        layout: stored,
        dirty: ready.dirty.insert(ready.layout.active_id),
        ..mid.logged(agg, (lsn + 1) as u64)
    };
    assert(within_lengths(done, o));
    if len > ready.max {
        lemma_seal_within(done, o);
    }
}

/// A commit keeps every value within the length of its segment.
pub proof fn lemma_commit_within_lengths<F>(s: State<F>, o: Option<Replacement>, upto: u64)
    requires
        within_lengths(s, o),
        s.wal.next_lsn < u64::MAX,
    ensures
        within_lengths(s.committed(upto), o),
{
    let block = s.wal.next_lsn;
    let rec = RecordModel::Commit { lsn: upto };
    let t = s.committed(upto);
    lemma_appended_log(s, rec, block);
    lemma_covers_other(s.wal.log(), s.layout, t.layout, s.next_free_id, o, (block, rec));
    assert(t.wal.log() =~= s.wal.log().push((block, rec)));
}

proof fn lemma_remaps_within<F>(s: State<F>, m: Replacement, es: Seq<EntryModel>, i: int)
    requires
        0 <= i <= es.len(),
        m.entries == es.take(i),
        within_lengths(s, Some(m)),
        m.new < s.next_free_id,
        forall|lsn: u64| #[trigger]
            s.layout.puts.contains_key(lsn) ==> s.layout.puts[lsn].seg != m.new,
        s.wal.next_lsn + (es.len() - i) <= u64::MAX,
        forall|k: int| 0 <= k < es.len() ==> entry_cost(#[trigger] es[k]) <= REMAP_BUDGET,
    ensures
        within_lengths(
            s.logged_all(remap_records(m.new, es, i)),
            Some(Replacement { entries: es, ..m }),
        ),
    decreases es.len() - i,
{
    if i >= es.len() {
        assert(es.take(i) =~= es);
        assert(s.logged_all(remap_records(m.new, es, i)) == s);
    } else {
        let j = chunk_end(es, i, REMAP_BUDGET as int);
        assert(entry_cost(es[i]) <= REMAP_BUDGET);
        lemma_chunk_end(es, i, REMAP_BUDGET as int);
        let part = es.subrange(i, j);
        let rec = RecordModel::SegmentRemap { new_segment_id: m.new, entries: part };
        let rest = remap_records(m.new, es, j);
        lemma_logged_all_concat(s, seq![rec], rest);
        lemma_logged_all_one(s, rec);
        let lsn = s.wal.next_lsn;
        let t = s.logged(rec, lsn);
        lemma_appended_log(s, rec, lsn);
        lemma_covers_remap(s.wal.log(), s.layout, s.next_free_id, m, lsn, part);
        assert(m.entries + part =~= es.take(j));
        let m2 = Replacement { entries: es.take(j), ..m };
        assert(within_lengths(t, Some(m2)));
        lemma_remaps_within(t, m2, es, j);
    }
}

/// Logging a compaction keeps every value within the length of its segment,
/// but for those in the segment that it replaces.
pub proof fn lemma_compact_stage_within_lengths<F>(
    s: State<F>,
    horizon: u64,
    plan: PlanModel<F>,
)
    requires
        within_lengths(s, None),
        plans(s, horizon, plan),
        plan.old != s.layout.active_id,
        plan.old < s.next_free_id < u64::MAX,
        s.wal.next_lsn + plan.entries.len() + 1 <= u64::MAX,
    ensures
        within_lengths(
            State { next_free_id: (s.next_free_id + 1) as u64, ..s }.logged_all(
                compact_records(plan.old, plan.new, plan.entries),
            ),
            Some(Replacement { old: plan.old, new: plan.new, entries: plan.entries }),
        ),
{
    let t = State { next_free_id: (s.next_free_id + 1) as u64, ..s };
    let es = plan.entries;
    let swap = RecordModel::SegmentSwap { old_segment_id: plan.old, new_segment_id: plan.new };
    let lsn = s.wal.next_lsn;
    lemma_appended_log(t, swap, lsn);
    lemma_covers_swap(
        s.wal.log(),
        s.layout,
        s.next_free_id,
        lsn,
        plan.old,
        plan.new,
        t.next_free_id,
    );
    let u = t.logged(swap, lsn);
    let m = Replacement { old: plan.old, new: plan.new, entries: Seq::empty() };
    assert(within_lengths(u, Some(m)));
    lemma_logged_all_one(t, swap);
    lemma_logged_all_concat(t, seq![swap], remap_records(plan.new, es, 0));
    assert forall|k: int| 0 <= k < es.len() implies entry_cost(#[trigger] es[k])
        <= REMAP_BUDGET by {
        assert(kept(s.layout, plan.old, horizon, plan.places[k].1));
    }
    assert(es.take(0) =~= Seq::<EntryModel>::empty());
    assert(compact_records(plan.old, plan.new, es) =~= seq![swap] + remap_records(
        plan.new,
        es,
        0,
    ));
    lemma_remaps_within(u, m, es, 0);
}

/// Completing a replacement keeps every value within the length of its
/// segment.
pub proof fn lemma_compact_commit_within_lengths<F>(
    s: State<F>,
    m: Replacement,
    file: F,
    gone: Set<u64>,
    disk: Disk,
)
    requires
        within_lengths(s, Some(m)),
        m.new < s.next_free_id,
        m.old != m.new,
        indexed(disk, s.layout),
        names_puts(s.layout, m.old, m.entries),
        forall|j: int|
            0 <= j < m.entries.len() ==> (#[trigger] m.entries[j]).offset + m.entries[j].len
                <= u64::MAX,
    ensures
        within_lengths(s.compacted(m.old, m.new, file, m.entries, gone), None),
{
    lemma_covers_settle(s.wal.log(), s.layout, s.next_free_id, m, gone);
}

/// The files, each cut to its length in `lens` where it is longer.
pub open spec fn cut(disk: Disk, lens: Map<u64, u64>) -> Disk {
    Map::new(
        |seg: u64| disk.contains_key(seg),
        |seg: u64|
            if lens.contains_key(seg) && lens[seg] < disk[seg].len() {
                disk[seg].take(lens[seg] as int)
            } else {
                disk[seg]
            },
    )
}

/// `after` holds what `disk` holds, up to the lengths in `lens`.
pub open spec fn survives(disk: Disk, after: Disk, lens: Map<u64, u64>) -> bool {
    forall|seg: u64| #[trigger]
        disk.contains_key(seg) && lens.contains_key(seg) ==> {
            let n = if lens[seg] <= disk[seg].len() {
                lens[seg] as int
            } else {
                disk[seg].len() as int
            };
            &&& after.contains_key(seg)
            &&& n <= after[seg].len()
            &&& after[seg].take(n) == disk[seg].take(n)
        }
}

/// A value that lies within the length of its segment is still in its place
/// when the files are cut to their lengths.
pub proof fn lemma_cut_keeps_value(
    disk: Disk,
    after: Disk,
    lens: Map<u64, u64>,
    p: PutModel,
    value: Seq<u8>,
)
    requires
        survives(disk, after, lens),
        holds(disk, p, value),
        ends_within(lens, p),
    ensures
        holds(cut(after, lens), p, value),
{
    let n = if lens[p.seg] <= disk[p.seg].len() {
        lens[p.seg] as int
    } else {
        disk[p.seg].len() as int
    };
    let found = cut(after, lens);
    assert(found[p.seg].subrange(p.offset as int, p.offset + p.len) =~= after[p.seg].take(
        n,
    ).subrange(p.offset as int, p.offset + p.len));
    assert(disk[p.seg].subrange(p.offset as int, p.offset + p.len) =~= disk[p.seg].take(
        n,
    ).subrange(p.offset as int, p.offset + p.len));
}

/// What a log covers is covered too once the log is replayed: what recovery
/// knows beyond `l` is in replaced segments.
pub proof fn lemma_replayed_covers(log: Seq<Logged>, l: Layout, next_id: u64, next_id2: u64)
    requires
        covers(log, l, next_id, None),
        accounts(log, l, None),
        agree(recovered(log), l),
        forall|id: u64| #[trigger] committed_lengths(log).contains_key(id) ==> id < next_id2,
    ensures
        covers(log, recovered(log), next_id2, None),
{
    let r = recovered(log);
    let lens = committed_lengths(log);
    assert forall|i: int| 0 <= i < log.len() implies record_ids_below(
        (#[trigger] log[i]).1,
        next_id2,
    ) && ids_within(log[i].1, lens) by {
        assert(ids_within(log[i].1, lens));
    }
    lemma_swaps_have_lengths(log, lens);
    lemma_lengths_kept(all_lengths(log), log, swaps(log));
    assert forall|id: u64| #[trigger] played_lengths(log).contains_key(id) implies id
        < next_id2 by {
        assert(all_lengths(log).contains_key(id));
        assert(lens.contains_key(id));
    }
    assert forall|lsn: u64| #[trigger] r.puts.contains_key(lsn) implies {
        let p = r.puts[lsn];
        &&& p.seg < next_id2
        &&& p.seg == r.active_id ==> p.offset + p.len <= r.active_offset
        &&& was_replaced(log, p.seg) || ends_within(lens, p)
    } by {
        let p = r.puts[lsn];
        if was_replaced(log, p.seg) {
            let i = choose|i: int| 0 <= i < swaps(log).len() && (#[trigger] swaps(log)[i]).0
                == p.seg;
            assert(lens.contains_key(swaps(log)[i].0));
        } else {
            assert(l.puts.contains_key(lsn));
        }
    }
}

proof fn lemma_lengths_kept(lens: Map<u64, u64>, log: Seq<Logged>, pairs: Seq<(u64, u64)>)
    ensures
        forall|id: u64| #[trigger]
            lens.contains_key(id) ==> replaced_lengths(lens, log, pairs).contains_key(id),
    decreases pairs.len(),
{
    if pairs.len() > 0 {
        lemma_lengths_kept(lens, log, pairs.drop_last());
    }
}

proof fn lemma_swaps_have_lengths(log: Seq<Logged>, lens: Map<u64, u64>)
    requires
        forall|i: int| 0 <= i < log.len() ==> ids_within((#[trigger] log[i]).1, lens),
    ensures
        forall|i: int|
            0 <= i < swaps(log).len() ==> lens.contains_key((#[trigger] swaps(log)[i]).0),
    decreases log.len(),
{
    if log.len() > 0 {
        let front = log.drop_last();
        assert forall|i: int| 0 <= i < front.len() implies ids_within(
            (#[trigger] front[i]).1,
            lens,
        ) by {
            assert(front[i] == log[i]);
        }
        lemma_swaps_have_lengths(front, lens);
        assert(ids_within(log[log.len() - 1].1, lens));
        assert forall|i: int| 0 <= i < swaps(log).len() implies lens.contains_key(
            (#[trigger] swaps(log)[i]).0,
        ) by {
            if i < swaps(front).len() {
                assert(swaps(log)[i] == swaps(front)[i]);
            }
        }
    }
}

} // verus!
