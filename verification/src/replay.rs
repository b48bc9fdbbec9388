//! How a log and the layout that it leads to grow together.

use vstd::prelude::*;

use crate::layout::{moved, played, recovered, replaced, swaps, without, Layout, Location};
use crate::table::{distinct, lemma_put, lemma_slot, lookup, put, slot, Rows};
use crate::wal::{EntryModel, Logged, RecordModel};

verus! {

/// Putting two rows under different keys, of which one is there already, may
/// be done in either order.
proof fn lemma_put_commutes<V>(rows: Rows<V>, a: Seq<char>, x: V, b: Seq<char>, y: V)
    requires
        distinct(rows),
        a != b,
        slot(rows, b) >= 0,
    ensures
        put(put(rows, a, x), b, y) == put(put(rows, b, y), a, x),
{
    lemma_slot(rows, a);
    lemma_slot(rows, b);
    lemma_put(rows, a, x, b);
    lemma_put(rows, b, y, a);
    assert(put(put(rows, a, x), b, y) =~= put(put(rows, b, y), a, x));
}

/// Of two puts under one key the second counts.
proof fn lemma_put_twice<V>(rows: Rows<V>, a: Seq<char>, x: V, y: V)
    requires
        distinct(rows),
    ensures
        put(put(rows, a, x), a, y) == put(rows, a, y),
{
    lemma_slot(rows, a);
    lemma_put(rows, a, x, a);
    assert(put(put(rows, a, x), a, y) =~= put(rows, a, y));
}

/// Layouts that differ only in bookkeeping that puts do not touch.
proof fn lemma_repoint_put(l: Layout, e: EntryModel, new: u64, key: Seq<char>, len: u32, lsn: u64)
    requires
        distinct(l.index),
        e.lsn != lsn,
    ensures
        l.put(key, len, lsn).repoint(e, new) == l.repoint(e, new).put(key, len, lsn),
        distinct(l.repoint(e, new).index),
{
    let at = Location { seg: l.active_id, offset: l.active_offset, len, lsn };
    let to = Location { seg: new, offset: e.offset, len: e.len, lsn: e.lsn };
    lemma_put(l.index, key, at, e.key);
    lemma_put(l.index, e.key, to, e.key);
    lemma_slot(l.index, e.key);
    if let Some(was) = lookup(l.index, e.key) {
        if was.lsn == e.lsn {
            if e.key == key {
                lemma_put_twice(l.index, key, to, at);
            } else {
                lemma_put_commutes(l.index, key, at, e.key, to);
            }
        }
    }
    let a = l.put(key, len, lsn).repoint(e, new);
    let b = l.repoint(e, new).put(key, len, lsn);
    assert(a.puts =~= b.puts);
    assert(a.index == b.index);
    assert(a =~= b);
}

/// No entry names the put at `lsn`.
pub open spec fn untouched(es: Seq<EntryModel>, lsn: u64) -> bool {
    forall|i: int| 0 <= i < es.len() ==> (#[trigger] es[i]).lsn != lsn
}

/// A put that no entry names may be made before or after values are moved.
pub proof fn lemma_repoint_all_put(
    l: Layout,
    es: Seq<EntryModel>,
    new: u64,
    key: Seq<char>,
    len: u32,
    lsn: u64,
)
    requires
        distinct(l.index),
        untouched(es, lsn),
    ensures
        l.put(key, len, lsn).repoint_all(es, new) == l.repoint_all(es, new).put(key, len, lsn),
        distinct(l.repoint_all(es, new).index),
    decreases es.len(),
{
    if es.len() > 0 {
        let front = es.drop_last();
        assert forall|i: int| 0 <= i < front.len() implies (#[trigger] front[i]).lsn != lsn by {
            assert(front[i] == es[i]);
        }
        lemma_repoint_all_put(l, front, new, key, len, lsn);
        assert(es[es.len() - 1].lsn != lsn);
        lemma_repoint_put(l.repoint_all(front, new), es.last(), new, key, len, lsn);
    }
}

pub proof fn lemma_repoint_all_distinct(l: Layout, es: Seq<EntryModel>, new: u64)
    requires
        distinct(l.index),
    ensures
        distinct(l.repoint_all(es, new).index),
    decreases es.len(),
{
    if es.len() > 0 {
        let m = l.repoint_all(es.drop_last(), new);
        lemma_repoint_all_distinct(l, es.drop_last(), new);
        lemma_put(
            m.index,
            es.last().key,
            Location {
                seg: new,
                offset: es.last().offset,
                len: es.last().len,
                lsn: es.last().lsn,
            },
            es.last().key,
        );
    }
}

/// Moving values changes nothing but the index and the places of puts.
pub proof fn lemma_repoint_all_frame(l: Layout, es: Seq<EntryModel>, new: u64)
    ensures
        l.repoint_all(es, new) == (Layout {
            index: l.repoint_all(es, new).index,
            puts: l.repoint_all(es, new).puts,
            ..l
        }),
    decreases es.len(),
{
    if es.len() > 0 {
        lemma_repoint_all_frame(l, es.drop_last(), new);
    }
}

/// The index and the places of puts after values are moved depend on those
/// before alone.
pub proof fn lemma_repoint_all_index(a: Layout, b: Layout, es: Seq<EntryModel>, new: u64)
    requires
        a.index == b.index,
    ensures
        a.repoint_all(es, new).index == b.repoint_all(es, new).index,
        a.puts == b.puts ==> a.repoint_all(es, new).puts == b.repoint_all(es, new).puts,
    decreases es.len(),
{
    if es.len() > 0 {
        lemma_repoint_all_index(a, b, es.drop_last(), new);
    }
}

/// Moving `a` and then `b` is moving both.
pub proof fn lemma_repoint_all_concat(
    l: Layout,
    a: Seq<EntryModel>,
    b: Seq<EntryModel>,
    new: u64,
)
    ensures
        l.repoint_all(a + b, new) == l.repoint_all(a, new).repoint_all(b, new),
    decreases b.len(),
{
    if b.len() == 0 {
        assert(a + b =~= a);
    } else {
        assert((a + b).drop_last() =~= a + b.drop_last());
        lemma_repoint_all_concat(l, a, b.drop_last(), new);
    }
}

/// Where moved entries may come from: no replacement in `pairs` touches the
/// put at `lsn`.
pub open spec fn none_touched(log: Seq<Logged>, pairs: Seq<(u64, u64)>, lsn: u64) -> bool {
    forall|i: int| 0 <= i < pairs.len() ==> untouched(moved(log, (#[trigger] pairs[i]).1), lsn)
}

proof fn lemma_replaced_put(
    l: Layout,
    log: Seq<Logged>,
    pairs: Seq<(u64, u64)>,
    key: Seq<char>,
    len: u32,
    lsn: u64,
)
    requires
        distinct(l.index),
        none_touched(log, pairs, lsn),
    ensures
        replaced(l.put(key, len, lsn), log, pairs) == replaced(l, log, pairs).put(key, len, lsn),
        distinct(replaced(l, log, pairs).index),
    decreases pairs.len(),
{
    if pairs.len() > 0 {
        let front = pairs.drop_last();
        assert forall|i: int| 0 <= i < front.len() implies untouched(
            moved(log, (#[trigger] front[i]).1),
            lsn,
        ) by {
            assert(front[i] == pairs[i]);
        }
        lemma_replaced_put(l, log, front, key, len, lsn);
        let (old, new) = pairs.last();
        let m = replaced(l, log, front);
        assert(untouched(moved(log, pairs[pairs.len() - 1].1), lsn));
        lemma_repoint_all_put(m, moved(log, new), new, key, len, lsn);
        let a = m.repoint_all(moved(log, new), new);
        assert(a.put(key, len, lsn).replace(old, new) =~= a.replace(old, new).put(key, len, lsn));
    }
}

/// The replacements depend on the log through what it moves alone.
proof fn lemma_replaced_same(l: Layout, a: Seq<Logged>, b: Seq<Logged>, pairs: Seq<(u64, u64)>)
    requires
        forall|i: int|
            0 <= i < pairs.len() ==> moved(a, (#[trigger] pairs[i]).1) == moved(b, pairs[i].1),
    ensures
        replaced(l, a, pairs) == replaced(l, b, pairs),
    decreases pairs.len(),
{
    if pairs.len() > 0 {
        let front = pairs.drop_last();
        assert forall|i: int| 0 <= i < front.len() implies moved(a, (#[trigger] front[i]).1) == moved(
            b,
            front[i].1,
        ) by {
            assert(front[i] == pairs[i]);
        }
        lemma_replaced_same(l, a, b, front);
        assert(moved(a, pairs[pairs.len() - 1].1) == moved(b, pairs[pairs.len() - 1].1));
    }
}

proof fn lemma_moved_push(log: Seq<Logged>, r: Logged, new: u64)
    ensures
        moved(log.push(r), new) == moved(log, new) + (match r.1 {
            RecordModel::SegmentRemap { new_segment_id, entries } => if new_segment_id == new {
                entries
            } else {
                Seq::empty()
            },
            _ => Seq::empty(),
        }),
        swaps(log.push(r)) == (match r.1 {
            RecordModel::SegmentSwap { old_segment_id, new_segment_id } => swaps(log).push(
                (old_segment_id, new_segment_id),
            ),
            _ => swaps(log),
        }),
        played(log.push(r)) == played(log).step(r),
{
    assert(log.push(r).drop_last() =~= log);
    assert(moved(log, new) + Seq::<EntryModel>::empty() =~= moved(log, new));
}

/// A log that ends with a fresh put leads to the layout before it, with the
/// put.
pub proof fn lemma_recovered_put(log: Seq<Logged>, lsn: u64, key: Seq<char>, len: u32, stripe: u64)
    requires
        distinct(played(log).index),
        none_touched(log, swaps(log), lsn),
    ensures
        recovered(log.push((lsn, RecordModel::Put { key, len, stripe_id: stripe }))) == recovered(
            log,
        ).seen(lsn).put(key, len, lsn),
{
    let r = (lsn, RecordModel::Put { key, len, stripe_id: stripe });
    let next = log.push(r);
    let pairs = swaps(log);
    lemma_moved_push(log, r, 0);
    assert forall|i: int| 0 <= i < pairs.len() implies moved(next, (#[trigger] pairs[i]).1) == moved(
        log,
        pairs[i].1,
    ) by {
        lemma_moved_push(log, r, pairs[i].1);
        assert(moved(log, pairs[i].1) + Seq::<EntryModel>::empty() =~= moved(log, pairs[i].1));
    }
    let l = played(log);
    lemma_replaced_same(l.seen(lsn).put(key, len, lsn), next, log, pairs);
    lemma_replaced_put(l.seen(lsn), log, pairs, key, len, lsn);
    lemma_replaced_seen(l, log, pairs, lsn);
}

/// Replacements leave alone what only says how far the log was seen.
proof fn lemma_replaced_seen(l: Layout, log: Seq<Logged>, pairs: Seq<(u64, u64)>, lsn: u64)
    ensures
        replaced(l.seen(lsn), log, pairs) == replaced(l, log, pairs).seen(lsn),
    decreases pairs.len(),
{
    if pairs.len() > 0 {
        lemma_replaced_seen(l, log, pairs.drop_last(), lsn);
        let (old, new) = pairs.last();
        let m = replaced(l, log, pairs.drop_last());
        let es = moved(log, new);
        lemma_repoint_all_frame(m, es, new);
        lemma_repoint_all_frame(m.seen(lsn), es, new);
        lemma_repoint_all_index(m, m.seen(lsn), es, new);
        assert(m.seen(lsn).repoint_all(es, new) =~= m.repoint_all(es, new).seen(lsn));
        assert(m.repoint_all(es, new).seen(lsn).replace(old, new) =~= m.repoint_all(
            es,
            new,
        ).replace(old, new).seen(lsn));
    }
}

/// Replacements leave commits alone.
proof fn lemma_replaced_commit(
    l: Layout,
    log: Seq<Logged>,
    pairs: Seq<(u64, u64)>,
    upto: u64,
    lsn: u64,
)
    ensures
        replaced(l.commit(upto, lsn), log, pairs) == replaced(l, log, pairs).commit(upto, lsn),
    decreases pairs.len(),
{
    if pairs.len() > 0 {
        lemma_replaced_commit(l, log, pairs.drop_last(), upto, lsn);
        let (old, new) = pairs.last();
        let m = replaced(l, log, pairs.drop_last());
        let es = moved(log, new);
        lemma_repoint_all_frame(m, es, new);
        lemma_repoint_all_frame(m.commit(upto, lsn), es, new);
        lemma_repoint_all_index(m, m.commit(upto, lsn), es, new);
        assert(m.commit(upto, lsn).repoint_all(es, new) =~= m.repoint_all(es, new).commit(
            upto,
            lsn,
        ));
        assert(m.repoint_all(es, new).commit(upto, lsn).replace(old, new) =~= m.repoint_all(
            es,
            new,
        ).replace(old, new).commit(upto, lsn));
    }
}

/// A log that ends with a commit leads to the layout before it, with the
/// commit.
pub proof fn lemma_recovered_commit(log: Seq<Logged>, lsn: u64, upto: u64)
    ensures
        recovered(log.push((lsn, RecordModel::Commit { lsn: upto }))) == recovered(log).seen(
            lsn,
        ).commit(upto, lsn),
{
    let r = (lsn, RecordModel::Commit { lsn: upto });
    let next = log.push(r);
    let pairs = swaps(log);
    lemma_moved_push(log, r, 0);
    assert forall|i: int| 0 <= i < pairs.len() implies moved(next, (#[trigger] pairs[i]).1) == moved(
        log,
        pairs[i].1,
    ) by {
        lemma_moved_push(log, r, pairs[i].1);
        assert(moved(log, pairs[i].1) + Seq::<EntryModel>::empty() =~= moved(log, pairs[i].1));
    }
    let l = played(log);
    lemma_replaced_same(l.seen(lsn).commit(upto, lsn), next, log, pairs);
    lemma_replaced_commit(l.seen(lsn), log, pairs, upto, lsn);
    lemma_replaced_seen(l, log, pairs, lsn);
}

/// A log that ends with deltas leads to the layout before them.
pub proof fn lemma_recovered_agg(log: Seq<Logged>, r: Logged)
    requires
        r.1 is AggDelta,
    ensures
        recovered(log.push(r)) == recovered(log).seen(r.0),
{
    let next = log.push(r);
    let pairs = swaps(log);
    lemma_moved_push(log, r, 0);
    assert forall|i: int| 0 <= i < pairs.len() implies moved(next, (#[trigger] pairs[i]).1) == moved(
        log,
        pairs[i].1,
    ) by {
        lemma_moved_push(log, r, pairs[i].1);
        assert(moved(log, pairs[i].1) + Seq::<EntryModel>::empty() =~= moved(log, pairs[i].1));
    }
    let l = played(log);
    lemma_replaced_same(l.seen(r.0), next, log, pairs);
    lemma_replaced_seen(l, log, pairs, r.0);
}

/// What is left without `id`.
pub proof fn lemma_without(ids: Seq<u64>, id: u64, x: u64)
    ensures
        without(ids, id).contains(x) <==> ids.contains(x) && x != id,
    decreases ids.len(),
{
    if ids.len() > 0 {
        let front = ids.drop_last();
        lemma_without(front, id, x);
        let w = without(front, id);
        if ids.contains(x) {
            let k = choose|k: int| 0 <= k < ids.len() && ids[k] == x;
            if k < front.len() {
                assert(front[k] == x);
            }
        }
        if front.contains(x) {
            let k = choose|k: int| 0 <= k < front.len() && front[k] == x;
            assert(ids[k] == x);
        }
        if ids.last() != id {
            let p = w.push(ids.last());
            assert(p[w.len() as int] == ids.last());
            if w.contains(x) {
                let k = choose|k: int| 0 <= k < w.len() && w[k] == x;
                assert(p[k] == x);
            }
            if p.contains(x) && x != ids.last() {
                let k = choose|k: int| 0 <= k < p.len() && p[k] == x;
                assert(w[k] == x);
            }
        }
        assert(ids[ids.len() - 1] == ids.last());
    }
}

pub proof fn lemma_push_contains(ids: Seq<u64>, id: u64, x: u64)
    ensures
        ids.push(id).contains(x) <==> ids.contains(x) || x == id,
{
    let p = ids.push(id);
    assert(p[ids.len() as int] == id);
    if ids.contains(x) {
        let k = choose|k: int| 0 <= k < ids.len() && ids[k] == x;
        assert(p[k] == x);
    }
    if p.contains(x) && x != id {
        let k = choose|k: int| 0 <= k < p.len() && p[k] == x;
        assert(ids[k] == x);
    }
}

/// The same layout, as far as a log determines it: everything but the order
/// of the sealed segments, how far the log was seen, and puts whose values
/// are gone (`l` may know fewer of them).
pub open spec fn agree(r: Layout, l: Layout) -> bool {
    &&& r.index == l.index
    &&& r.live == l.live
    &&& r.active_id == l.active_id
    &&& r.active_offset == l.active_offset
    &&& r.committed_lsn == l.committed_lsn
    &&& r.last_commit_block == l.last_commit_block
    &&& forall|id: u64| #[trigger] r.sealed.contains(id) <==> l.sealed.contains(id)
    &&& forall|lsn: u64| #[trigger]
        l.puts.contains_key(lsn) ==> r.puts.contains_key(lsn) && r.puts[lsn] == l.puts[lsn]
}

pub proof fn lemma_agree_put(r: Layout, l: Layout, key: Seq<char>, len: u32, lsn: u64)
    requires
        agree(r, l),
    ensures
        agree(r.put(key, len, lsn), l.put(key, len, lsn)),
{
}

pub proof fn lemma_agree_seal(r: Layout, l: Layout, id: u64, next: u64)
    requires
        agree(r, l),
    ensures
        agree(r.seal(id, next), l.seal(id, next)),
{
    assert forall|x: u64| #[trigger] r.seal(id, next).sealed.contains(x) <==> l.seal(
        id,
        next,
    ).sealed.contains(x) by {
        lemma_push_contains(r.sealed, id, x);
        lemma_push_contains(l.sealed, id, x);
    }
}

pub proof fn lemma_agree_replace(r: Layout, l: Layout, old: u64, new: u64)
    requires
        agree(r, l),
    ensures
        agree(r.replace(old, new), l.replace(old, new)),
{
    assert forall|x: u64| #[trigger] r.replace(old, new).sealed.contains(x) <==> l.replace(
        old,
        new,
    ).sealed.contains(x) by {
        lemma_push_contains(without(r.sealed, old), new, x);
        lemma_push_contains(without(l.sealed, old), new, x);
        lemma_without(r.sealed, old, x);
        lemma_without(l.sealed, old, x);
    }
}

pub proof fn lemma_agree_repoint_all(r: Layout, l: Layout, es: Seq<EntryModel>, new: u64)
    requires
        agree(r, l),
    ensures
        agree(r.repoint_all(es, new), l.repoint_all(es, new)),
    decreases es.len(),
{
    if es.len() > 0 {
        lemma_agree_repoint_all(r, l, es.drop_last(), new);
    }
}

/// Replacements of other segments keep a sealed segment sealed.
proof fn lemma_replaced_seal(
    l: Layout,
    log: Seq<Logged>,
    pairs: Seq<(u64, u64)>,
    id: u64,
    next: u64,
)
    requires
        forall|i: int| 0 <= i < pairs.len() ==> (#[trigger] pairs[i]).0 != id,
    ensures
        agree(replaced(l.seal(id, next), log, pairs), replaced(l, log, pairs).seal(id, next)),
        replaced(l.seal(id, next), log, pairs).index == replaced(l, log, pairs).index,
        replaced(l.seal(id, next), log, pairs).puts == replaced(l, log, pairs).puts,
    decreases pairs.len(),
{
    if pairs.len() > 0 {
        let front = pairs.drop_last();
        assert forall|i: int| 0 <= i < front.len() implies (#[trigger] front[i]).0 != id by {
            assert(front[i] == pairs[i]);
        }
        lemma_replaced_seal(l, log, front, id, next);
        let (old, new) = pairs.last();
        assert(pairs[pairs.len() - 1].0 != id);
        let es = moved(log, new);
        let a = replaced(l.seal(id, next), log, front);
        let m = replaced(l, log, front);
        lemma_repoint_all_index(a, m, es, new);
        lemma_agree_repoint_all(a, m.seal(id, next), es, new);
        lemma_agree_replace(
            a.repoint_all(es, new),
            m.seal(id, next).repoint_all(es, new),
            old,
            new,
        );
        // The seal may be moved behind the replacement.
        let x = m.seal(id, next).repoint_all(es, new).replace(old, new);
        let y = m.repoint_all(es, new).replace(old, new).seal(id, next);
        lemma_repoint_all_frame(m, es, new);
        lemma_repoint_all_frame(m.seal(id, next), es, new);
        lemma_repoint_all_index(m, m.seal(id, next), es, new);
        assert forall|z: u64| #[trigger] x.sealed.contains(z) <==> y.sealed.contains(z) by {
            lemma_push_contains(without(m.sealed.push(id), old), new, z);
            lemma_without(m.sealed.push(id), old, z);
            lemma_push_contains(m.sealed, id, z);
            lemma_push_contains(without(m.sealed, old).push(new), id, z);
            lemma_push_contains(without(m.sealed, old), new, z);
            lemma_without(m.sealed, old, z);
        }
        assert(agree(x, y));
    }
}

/// A log that ends with the seal of a segment that was never replaced leads
/// to the layout before it, with the seal.
pub proof fn lemma_recovered_seal(log: Seq<Logged>, lsn: u64, id: u64, next: u64)
    requires
        forall|i: int| 0 <= i < swaps(log).len() ==> (#[trigger] swaps(log)[i]).0 != id,
    ensures
        agree(
            recovered(
                log.push(
                    (lsn, RecordModel::SegmentSeal { segment_id: id, next_segment_id: next }),
                ),
            ),
            recovered(log).seal(id, next),
        ),
        recovered(
            log.push((lsn, RecordModel::SegmentSeal { segment_id: id, next_segment_id: next })),
        ).puts == recovered(log).puts,
{
    let r = (lsn, RecordModel::SegmentSeal { segment_id: id, next_segment_id: next });
    let after = log.push(r);
    let pairs = swaps(log);
    lemma_moved_push(log, r, 0);
    assert forall|i: int| 0 <= i < pairs.len() implies moved(after, (#[trigger] pairs[i]).1) == moved(
        log,
        pairs[i].1,
    ) by {
        lemma_moved_push(log, r, pairs[i].1);
        assert(moved(log, pairs[i].1) + Seq::<EntryModel>::empty() =~= moved(log, pairs[i].1));
    }
    let l = played(log);
    lemma_replaced_same(l.seen(lsn).seal(id, next), after, log, pairs);
    lemma_replaced_seal(l.seen(lsn), log, pairs, id, next);
    lemma_replaced_seen(l, log, pairs, lsn);
    let x = recovered(after);
    let y = recovered(log).seen(lsn).seal(id, next);
    let z = recovered(log).seal(id, next);
    assert(agree(x, y));
    assert(y.sealed == z.sealed && y.puts == z.puts);
}

/// A log that ends with the replacement of a segment by a new one, into which
/// nothing was moved yet, leads to the layout before it, with the
/// replacement.
pub proof fn lemma_recovered_swap(log: Seq<Logged>, lsn: u64, old: u64, new: u64)
    requires
        moved(log, new).len() == 0,
    ensures
        recovered(
            log.push((lsn, RecordModel::SegmentSwap { old_segment_id: old, new_segment_id: new })),
        ) == recovered(log).seen(lsn).replace(old, new),
{
    let r = (lsn, RecordModel::SegmentSwap { old_segment_id: old, new_segment_id: new });
    let after = log.push(r);
    let pairs = swaps(log);
    lemma_moved_push(log, r, new);
    assert forall|i: int| 0 <= i < pairs.len() implies moved(after, (#[trigger] pairs[i]).1) == moved(
        log,
        pairs[i].1,
    ) by {
        lemma_moved_push(log, r, pairs[i].1);
        assert(moved(log, pairs[i].1) + Seq::<EntryModel>::empty() =~= moved(log, pairs[i].1));
    }
    let l = played(log);
    lemma_replaced_same(l.seen(lsn), after, log, pairs);
    lemma_replaced_seen(l, log, pairs, lsn);
    assert(swaps(after).drop_last() =~= pairs);
    assert(moved(after, new).len() == 0);
}

/// A log that ends with values moved by its last replacement leads to the
/// layout before it, with the values moved.
pub proof fn lemma_recovered_remap(log: Seq<Logged>, lsn: u64, new: u64, es: Seq<EntryModel>)
    requires
        swaps(log).len() > 0,
        swaps(log).last().1 == new,
        forall|i: int| 0 <= i < swaps(log).len() - 1 ==> (#[trigger] swaps(log)[i]).1 != new,
    ensures
        recovered(
            log.push((lsn, RecordModel::SegmentRemap { new_segment_id: new, entries: es })),
        ) == recovered(log).seen(lsn).repoint_all(es, new),
{
    let r = (lsn, RecordModel::SegmentRemap { new_segment_id: new, entries: es });
    let after = log.push(r);
    let pairs = swaps(log);
    let front = pairs.drop_last();
    let old = pairs.last().0;
    lemma_moved_push(log, r, new);
    assert forall|i: int| 0 <= i < front.len() implies moved(after, (#[trigger] front[i]).1) == moved(
        log,
        front[i].1,
    ) by {
        assert(front[i] == pairs[i]);
        lemma_moved_push(log, r, front[i].1);
        assert(moved(log, front[i].1) + Seq::<EntryModel>::empty() =~= moved(log, front[i].1));
    }
    let l = played(log);
    lemma_replaced_same(l.seen(lsn), after, log, front);
    lemma_replaced_seen(l, log, pairs, lsn);
    let m = replaced(l.seen(lsn), log, front);
    let before = moved(log, new);
    lemma_repoint_all_concat(m, before, es, new);
    let a = m.repoint_all(before, new);
    lemma_repoint_all_frame(a, es, new);
    lemma_repoint_all_frame(a.replace(old, new), es, new);
    lemma_repoint_all_index(a, a.replace(old, new), es, new);
    assert(a.repoint_all(es, new).replace(old, new) =~= a.replace(old, new).repoint_all(es, new));
}

} // verus!
