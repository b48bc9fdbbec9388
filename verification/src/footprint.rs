//! How much room a store takes: how long its segments get, and what a
//! compaction gives back.

use vstd::prelude::*;

use crate::layout::{without, Layout};
use crate::ordered::increasing;
use crate::replay::{lemma_push_contains, lemma_repoint_all_frame, lemma_without};
use crate::segment::compact::{
    chosen, dropped, in_order, is_live, kept, packed, places_len, plans, puts_len, reclaimable,
    PlanModel,
};
use crate::state::State;
use crate::values::{holds_copies, Disk};
use crate::wal::EntryModel;

verus! {

/// Segments stay as short as they are to be: a put goes where it ends within
/// the limit, or to the start of a segment that has nothing else in it. The
/// next put finds a segment within the limit again.
pub proof fn lemma_segments_stay_short<F>(s: State<F>, key: Seq<char>, len: u32, opened: Option<F>)
    requires
        s.layout.active_offset <= s.max,
        s.layout.active_id < s.next_free_id,
        s.has_room(len as nat),
    ensures
        ({
            let ready = s.before_put(len as nat).with_active(opened);
            let lsn = ready.wal.next_lsn;
            let after = ready.staged(key, len);
            let p = after.layout.puts[lsn];
            &&& after.layout.puts.contains_key(lsn)
            &&& p.key == key && p.len == len
            &&& p.seg == ready.layout.active_id
            &&& p.offset + p.len <= s.max || p.offset == 0
            &&& after.max == s.max
            &&& after.layout.active_offset <= after.max
            &&& after.layout.active_id == p.seg ==> after.layout.active_offset == p.offset + p.len
            &&& after.layout.active_id != p.seg ==> after.layout.sealed.contains(p.seg)
        }),
{
    let ready = s.before_put(len as nat).with_active(opened);
    let after = ready.staged(key, len);
    if len > s.max {
        let put = ready.layout.put(key, len, ready.wal.next_lsn);
        assert(after.layout.sealed == put.sealed.push(ready.layout.active_id));
        assert(after.layout.sealed[put.sealed.len() as int] == ready.layout.active_id);
    }
}

/// No segment is sealed while there is room in it: a put that ends within the
/// limit goes behind what is there.
pub proof fn lemma_segments_are_filled<F>(s: State<F>, key: Seq<char>, len: u32, opened: Option<F>)
    requires
        s.layout.active_offset + len <= s.max,
        s.has_room(len as nat),
    ensures
        ({
            let ready = s.before_put(len as nat).with_active(opened);
            let after = ready.staged(key, len);
            let p = after.layout.puts[ready.wal.next_lsn];
            &&& p.seg == s.layout.active_id
            &&& p.offset == s.layout.active_offset
            &&& after.layout.active_id == s.layout.active_id
            &&& after.layout.active_offset == s.layout.active_offset + len
            &&& after.layout.sealed == s.layout.sealed
        }),
{
}

/// The newest value of some key is the one that was put at `lsn`, and it is in
/// segment `seg`.
pub open spec fn in_use(l: Layout, seg: u64, lsn: u64) -> bool {
    exists|i: int|
        0 <= i < l.index.len() && (#[trigger] l.index[i]).1.lsn == lsn && l.index[i].1.seg == seg
}

/// The put at `lsn` wrote bytes to segment `seg` that nobody needs any more: it
/// is at or below `horizon`, and was overwritten.
pub open spec fn is_waste(l: Layout, seg: u64, horizon: u64, lsn: u64) -> bool {
    &&& l.puts.contains_key(lsn)
    &&& l.puts[lsn].seg == seg
    &&& lsn <= horizon
    &&& !in_use(l, seg, lsn)
}

proof fn lemma_waste_is_dropped(l: Layout, seg: u64, horizon: u64, lsn: u64)
    ensures
        is_waste(l, seg, horizon, lsn) <==> dropped(l, seg, horizon, lsn),
        is_live(l.index, seg, lsn) <==> in_use(l, seg, lsn),
{
}

/// Waste is found: as long as a sealed segment has bytes that nobody needs any
/// more, there is one to compact, and it has such bytes.
pub proof fn lemma_waste_is_found(l: Layout, horizon: u64, k: int, lsn: u64)
    requires
        0 <= k < l.sealed.len(),
        is_waste(l, l.sealed[k], horizon, lsn),
        l.puts[lsn].len > 0,
    ensures
        exists|seg: u64|
            {
                &&& #[trigger] chosen(l, horizon, seg)
                &&& l.sealed.contains(seg)
                &&& exists|a: u64|
                    #[trigger] is_waste(l, seg, horizon, a) && l.puts[a].len > 0
            },
{
    lemma_waste_is_dropped(l, l.sealed[k], horizon, lsn);
    assert(reclaimable(l, l.sealed[k], horizon));
    let i = lemma_first(l, horizon, k);
    let seg = l.sealed[i];
    let a = choose|a: u64| #[trigger] dropped(l, seg, horizon, a) && l.puts[a].len > 0;
    lemma_waste_is_dropped(l, seg, horizon, a);
    assert(l.sealed[i] == seg);
    assert(chosen(l, horizon, seg));
}

proof fn lemma_first(l: Layout, horizon: u64, k: int) -> (i: int)
    requires
        0 <= k < l.sealed.len(),
        reclaimable(l, l.sealed[k], horizon),
    ensures
        0 <= i <= k,
        reclaimable(l, l.sealed[i], horizon),
        forall|j: int| 0 <= j < i ==> !reclaimable(l, #[trigger] l.sealed[j], horizon),
    decreases k,
{
    if exists|j: int| 0 <= j < k && reclaimable(l, #[trigger] l.sealed[j], horizon) {
        let j = choose|j: int| 0 <= j < k && reclaimable(l, #[trigger] l.sealed[j], horizon);
        lemma_first(l, horizon, j)
    } else {
        k
    }
}

/// The segment that a compaction takes is the first of the sealed ones that has
/// bytes to give back: it has some, and those before it have none.
pub proof fn lemma_first_waste_goes_first<F>(s: State<F>, horizon: u64, plan: PlanModel<F>)
    requires
        plans(s, horizon, plan),
    ensures
        exists|a: u64|
            #[trigger] is_waste(s.layout, plan.old, horizon, a) && s.layout.puts[a].len > 0,
        exists|i: int|
            {
                &&& 0 <= i < s.layout.sealed.len()
                &&& #[trigger] s.layout.sealed[i] == plan.old
                &&& forall|j: int, a: u64|
                    0 <= j < i && #[trigger] is_waste(s.layout, s.layout.sealed[j], horizon, a)
                        ==> s.layout.puts[a].len == 0
            },
{
    let l = s.layout;
    let b = choose|b: u64| #[trigger] dropped(l, plan.old, horizon, b) && l.puts[b].len > 0;
    lemma_waste_is_dropped(l, plan.old, horizon, b);
    let i = choose|i: int|
        0 <= i < l.sealed.len() && (#[trigger] l.sealed[i]) == plan.old && reclaimable(
            l,
            plan.old,
            horizon,
        ) && forall|j: int| 0 <= j < i ==> !reclaimable(l, #[trigger] l.sealed[j], horizon);
    assert forall|j: int, a: u64|
        0 <= j < i && #[trigger] is_waste(l, l.sealed[j], horizon, a) implies l.puts[a].len
        == 0 by {
        lemma_waste_is_dropped(l, l.sealed[j], horizon, a);
        assert(!reclaimable(l, l.sealed[j], horizon));
    }
    assert(l.sealed[i] == plan.old);
}

/// A compaction drops all of the waste that is in its segment, which is sealed,
/// and nothing else. Every other put of the segment goes
/// over to the new one, with its key and its whole length, one behind the
/// other without gaps, in the order in which they were.
pub proof fn lemma_compaction_drops_the_waste<F>(
    s: State<F>,
    horizon: u64,
    plan: PlanModel<F>,
    lsn: u64,
)
    requires
        plans(s, horizon, plan),
        s.layout.puts.contains_key(lsn),
        s.layout.puts[lsn].seg == plan.old,
    ensures
        ({
            let l = s.layout;
            let p = l.puts[lsn];
            &&& l.sealed.contains(plan.old)
            &&& plan.dropped.contains(lsn) <==> lsn <= horizon && !in_use(l, plan.old, lsn)
            &&& !plan.dropped.contains(lsn) <==> exists|i: int|
                0 <= i < plan.entries.len() && (#[trigger] plan.entries[i]).lsn == lsn
            &&& forall|i: int|
                0 <= i < plan.entries.len() && (#[trigger] plan.entries[i]).lsn == lsn ==> {
                    &&& plan.entries[i].key == p.key
                    &&& plan.entries[i].len == p.len
                    &&& plan.places[i] == (p.offset, lsn)
                }
        }),
        plan.entries.len() == plan.places.len(),
        plan.entries.len() > 0 ==> plan.entries[0].offset == 0,
        forall|i: int|
            0 <= i < plan.entries.len() - 1 ==> #[trigger] plan.places[i].0 <= plan.places[i + 1].0
                && plan.entries[i + 1].offset == plan.entries[i].offset + plan.entries[i].len,
{
    let l = s.layout;
    lemma_waste_is_dropped(l, plan.old, horizon, lsn);
    if !plan.dropped.contains(lsn) {
        assert(kept(l, plan.old, horizon, lsn));
        assert(plan.places.contains((l.puts[lsn].offset, lsn)));
        let i = choose|i: int|
            0 <= i < plan.places.len() && plan.places[i] == (l.puts[lsn].offset, lsn);
        assert(plan.entries[i].lsn == lsn);
    }
    assert forall|i: int| 0 <= i < plan.entries.len() implies kept(
        l,
        plan.old,
        horizon,
        (#[trigger] plan.entries[i]).lsn,
    ) && plan.places[i] == (l.puts[plan.entries[i].lsn].offset, plan.entries[i].lsn) by {
        assert(kept(l, plan.old, horizon, plan.places[i].1));
    }
    assert forall|i: int| 0 <= i < plan.entries.len() - 1 implies #[trigger] plan.places[i].0
        <= plan.places[i + 1].0 && plan.entries[i + 1].offset == plan.entries[i].offset
        + plan.entries[i].len by {
        assert(in_order(plan.places));
        lemma_places_len_grows(l, plan.places, i + 1, plan.places.len() as int);
        lemma_places_len_grows(l, plan.places, i, plan.places.len() as int);
        assert(plan.entries[i + 1] == packed(l, plan.places)[i + 1]);
    }
}

proof fn lemma_places_len_grows(l: Layout, places: Seq<(u64, u64)>, i: int, n: int)
    requires
        0 <= i <= n <= places.len(),
    ensures
        places_len(l, places, i) <= places_len(l, places, n),
    decreases n,
{
    if i < n {
        lemma_places_len_grows(l, places, i, n - 1);
    }
}

/// The bytes that a compaction gives back are those of the puts that it drops,
/// and there are some.
pub proof fn lemma_compaction_frees<F>(s: State<F>, horizon: u64, plan: PlanModel<F>)
    requires
        plans(s, horizon, plan),
        puts_len(s.layout, plan.dropped) <= u64::MAX,
    ensures
        plan.freed > 0,
        plan.freed == plan.dropped.fold_left(
            0int,
            |sum: int, lsn: u64| sum + s.layout.puts[lsn].len,
        ),
        increasing(plan.dropped),
{
    let l = s.layout;
    let a = choose|a: u64|
        #[trigger] dropped(l, plan.old, horizon, a) && l.puts[a].len > 0;
    assert(plan.dropped.contains(a));
    let i = choose|i: int| 0 <= i < plan.dropped.len() && plan.dropped[i] == a;
    lemma_puts_len_has(l, plan.dropped, i);
    lemma_puts_len_is_sum(l, plan.dropped);
}

proof fn lemma_puts_len_has(l: Layout, lsns: Seq<u64>, i: int)
    requires
        0 <= i < lsns.len(),
    ensures
        puts_len(l, lsns) >= l.puts[lsns[i]].len,
    decreases lsns.len(),
{
    if i < lsns.len() - 1 {
        lemma_puts_len_has(l, lsns.drop_last(), i);
    }
}

proof fn lemma_puts_len_is_sum(l: Layout, lsns: Seq<u64>)
    ensures
        puts_len(l, lsns) == lsns.fold_left(0int, |sum: int, lsn: u64| sum + l.puts[lsn].len),
    decreases lsns.len(),
{
    reveal(Seq::fold_left);
    if lsns.len() > 0 {
        lemma_puts_len_is_sum(l, lsns.drop_last());
    }
}

/// Once every copy that a compaction calls for is made, from an offset of the old
/// segment to one of the new, the new segment holds all that is kept.
pub proof fn lemma_copies_fill_the_segment<F>(
    s: State<F>,
    horizon: u64,
    plan: PlanModel<F>,
    disk: Disk,
    file: Seq<u8>,
    i: int,
)
    requires
        plans(s, horizon, plan),
        forall|j: int|
            0 <= j < plan.entries.len() ==> {
                let (from, to, len) = #[trigger] plan.copy_of(j);
                &&& to + len <= file.len()
                &&& file.subrange(to as int, to + len) == disk[plan.old].subrange(
                    from as int,
                    from + len,
                )
            },
        0 <= i < plan.entries.len(),
    ensures
        holds_copies(disk, plan, s.layout, file),
        ({
            let p = s.layout.puts[plan.entries[i].lsn];
            let at = plan.entries[i].offset;
            file.subrange(at as int, at + p.len) == disk[plan.old].subrange(
                p.offset as int,
                p.offset + p.len,
            )
        }),
{
    let l = s.layout;
    assert forall|j: int| 0 <= j < plan.entries.len() implies (#[trigger] plan.entries[j]).offset
        + plan.entries[j].len <= file.len() && file.subrange(
        plan.entries[j].offset as int,
        plan.entries[j].offset + plan.entries[j].len,
    ) == disk[plan.old].subrange(
        plan.places[j].0 as int,
        plan.places[j].0 + plan.entries[j].len,
    ) by {
        let c = plan.copy_of(j);
    }
    assert(kept(l, plan.old, horizon, plan.places[i].1));
    assert(plan.entries[i] == packed(l, plan.places)[i]);
}

/// A compaction that is completed leaves nothing of the segment that it
/// replaced: it is not sealed, its file is not open, and the puts that were
/// dropped are forgotten. The new one is in its place, under its own file. The
/// other segments, and what is committed, stay.
pub proof fn lemma_compaction_leaves_nothing<F>(
    s: State<F>,
    old: u64,
    new: u64,
    file: F,
    es: Seq<EntryModel>,
    gone: Set<u64>,
    id: u64,
    lsn: u64,
)
    requires
        old != new,
    ensures
        ({
            let t = s.compacted(old, new, file, es, gone);
            &&& !t.layout.sealed.contains(old)
            &&& t.layout.sealed.contains(new)
            &&& id != old && id != new ==> (t.layout.sealed.contains(id)
                <==> s.layout.sealed.contains(id))
            &&& !t.open.contains_key(old)
            &&& t.open.contains_key(new) && t.open[new] == file
            &&& id != old && id != new ==> (t.open.contains_key(id) <==> s.open.contains_key(id))
            &&& id != old && id != new && s.open.contains_key(id) ==> t.open[id] == s.open[id]
            &&& gone.contains(lsn) ==> !t.layout.puts.contains_key(lsn)
            &&& t.layout.live == s.layout.live
            &&& t.layout.committed_lsn == s.layout.committed_lsn
            &&& t.layout.active_id == s.layout.active_id
            &&& t.layout.active_offset == s.layout.active_offset
            &&& t.wal == s.wal
        }),
{
    lemma_repoint_all_frame(s.layout, es, new);
    let kept = without(s.layout.sealed, old);
    lemma_without(s.layout.sealed, old, old);
    lemma_without(s.layout.sealed, old, id);
    lemma_push_contains(kept, new, new);
    lemma_push_contains(kept, new, old);
    lemma_push_contains(kept, new, id);
}

} // verus!
