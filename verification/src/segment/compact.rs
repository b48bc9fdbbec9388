//! Compaction: rewriting a sealed segment without the values that nobody can
//! ask for any more.

use std::collections::BTreeSet;
use std::sync::Arc;

use vstd::prelude::*;
use vstd::string::*;
use vstd::utf8::encode_utf8;

use crate::error::{ErrorModel, StoreError};
use crate::layout::{Layout, Location, PutModel};
use crate::ordered::{increasing, keys_of, lists};
use crate::state::State;
use crate::table::Rows;
use crate::text::{decimal, digits};
use crate::visible::shows;
use crate::wal::{
    encodable, entries_bytes, entry_bytes, entry_models, logged_models, EntryModel, Logged, Lsn,
    Record, RecordModel, RemapEntry,
};

use super::{put_models, Inner, Store};

verus! {

/// The put at `lsn` is the newest of its key, and lives in segment `seg`.
pub open spec fn is_live(index: Rows<Location>, seg: u64, lsn: u64) -> bool {
    exists|i: int|
        0 <= i < index.len() && (#[trigger] index[i]).1.seg == seg && index[i].1.lsn == lsn
}

/// The put at `lsn` wrote to segment `seg`.
pub open spec fn put_in(l: Layout, seg: u64, lsn: u64) -> bool {
    l.puts.contains_key(lsn) && l.puts[lsn].seg == seg
}

/// A compaction of segment `seg` keeps the value of the put at `lsn`: it may
/// still be read, or a follower may still ask for it.
pub open spec fn kept(l: Layout, seg: u64, horizon: u64, lsn: u64) -> bool {
    put_in(l, seg, lsn) && (is_live(l.index, seg, lsn) || lsn > horizon)
}

/// A compaction of segment `seg` drops the value of the put at `lsn`.
pub open spec fn dropped(l: Layout, seg: u64, horizon: u64, lsn: u64) -> bool {
    put_in(l, seg, lsn) && !kept(l, seg, horizon, lsn)
}

/// A compaction of segment `seg` would reclaim bytes.
pub open spec fn reclaimable(l: Layout, seg: u64, horizon: u64) -> bool {
    exists|lsn: u64| #[trigger] dropped(l, seg, horizon, lsn) && l.puts[lsn].len > 0
}

/// The segment that a compaction rewrites: the first sealed one with bytes to
/// reclaim.
pub open spec fn chosen(l: Layout, horizon: u64, seg: u64) -> bool {
    exists|i: int|
        0 <= i < l.sealed.len() && (#[trigger] l.sealed[i]) == seg && reclaimable(l, seg, horizon)
            && forall|j: int| 0 <= j < i ==> !reclaimable(l, #[trigger] l.sealed[j], horizon)
}

impl<F> Inner<F> {
    /// The LSNs of the live values of segment `seg`.
    fn live_lsns(&self, seg: u64) -> (live: BTreeSet<u64>)
        requires
            self.wf(),
        ensures
            forall|lsn: u64| #[trigger] live@.contains(lsn) <==> is_live(self.layout().index, seg, lsn),
    {
        let mut live: BTreeSet<u64> = BTreeSet::new();
        let ghost index = self.index@;
        let n: usize = self.index.len();
        for i in 0..n
            invariant
                index == self.index@,
                n == index.len(),
                forall|lsn: u64|
                    #[trigger] live@.contains(lsn) <==> is_live(index.take(i as int), seg, lsn),
        {
            let at = self.index.value_at(i);
            let ghost before = live@;
            if at.seg == seg {
                live.insert(at.lsn);
            }
            proof {
                let done = index.take(i as int);
                let more = index.take(i + 1);
                assert forall|lsn: u64| #[trigger] live@.contains(lsn) <==> is_live(more, seg, lsn) by {
                    if is_live(done, seg, lsn) {
                        let k = choose|k: int|
                            0 <= k < done.len() && (#[trigger] done[k]).1.seg == seg && done[k].1.lsn
                                == lsn;
                        assert(more[k] == done[k]);
                    }
                    if is_live(more, seg, lsn) {
                        let k = choose|k: int|
                            0 <= k < more.len() && (#[trigger] more[k]).1.seg == seg && more[k].1.lsn
                                == lsn;
                        if k < i {
                            assert(done[k] == more[k]);
                        }
                    }
                    if at.seg == seg && at.lsn == lsn {
                        assert(more[i as int].1 == at);
                    }
                    assert(before.contains(lsn) <==> is_live(done, seg, lsn));
                }
            }
        }
        assert(index.take(index.len() as int) =~= index);
        live
    }
}

/// The bytes of the first `n` of the values at `places`.
pub open spec fn places_len(l: Layout, places: Seq<(u64, u64)>, n: int) -> nat
    decreases n,
{
    if n <= 0 {
        0
    } else {
        places_len(l, places, n - 1) + l.puts[places[n - 1].1].len as nat
    }
}

/// The bytes that the values of the puts at `lsns` hold.
pub open spec fn puts_len(l: Layout, lsns: Seq<u64>) -> nat
    decreases lsns.len(),
{
    if lsns.len() == 0 {
        0
    } else {
        puts_len(l, lsns.drop_last()) + l.puts[lsns.last()].len as nat
    }
}

/// In the order of offsets, then LSNs.
pub open spec fn in_order(places: Seq<(u64, u64)>) -> bool {
    forall|i: int, j: int|
        0 <= i < j < places.len() ==> (#[trigger] places[i]).0 < (#[trigger] places[j]).0 || (
        places[i].0 == places[j].0 && places[i].1 < places[j].1)
}

/// `places` are offset and LSN of the values that a compaction keeps, in
/// order.
pub open spec fn keeps(l: Layout, seg: u64, horizon: u64, places: Seq<(u64, u64)>) -> bool {
    &&& in_order(places)
    &&& forall|i: int|
        0 <= i < places.len() ==> kept(l, seg, horizon, (#[trigger] places[i]).1)
            && l.puts[places[i].1].offset == places[i].0
    &&& forall|lsn: u64| #[trigger]
        kept(l, seg, horizon, lsn) ==> places.contains((l.puts[lsn].offset, lsn))
}

/// The values at `places`, packed one after the other.
pub open spec fn packed(l: Layout, places: Seq<(u64, u64)>) -> Seq<EntryModel> {
    Seq::new(
        places.len(),
        |i: int|
            EntryModel {
                key: l.puts[places[i].1].key,
                lsn: places[i].1,
                offset: places_len(l, places, i) as u64,
                len: l.puts[places[i].1].len,
            },
    )
}

/// The most bytes of a key for which a moved value can be logged.
pub const REMAP_KEY_MAX: usize = 4039;

/// Every moved value can be logged, and all of them fit in one segment.
pub open spec fn stageable(l: Layout, places: Seq<(u64, u64)>) -> bool {
    &&& places_len(l, places, places.len() as int) <= u64::MAX
    &&& forall|i: int|
        0 <= i < places.len() ==> encode_utf8(l.puts[(#[trigger] places[i]).1].key).len()
            <= REMAP_KEY_MAX
}

/// Puts a place in order among `places`.
fn insert_place(places: &mut Vec<(u64, u64)>, offset: u64, lsn: u64)
    requires
        in_order(old(places)@),
        forall|i: int| 0 <= i < old(places)@.len() ==> (#[trigger] old(places)@[i]).1 != lsn,
    ensures
        in_order(final(places)@),
        forall|p: (u64, u64)| #[trigger]
            final(places)@.contains(p) <==> old(places)@.contains(p) || p == (offset, lsn),
{
    let ghost before = places@;
    let mut at: usize = places.len();
    while at > 0 && (places[at - 1].0 > offset || (places[at - 1].0 == offset && places[at - 1].1
        > lsn))
        invariant
            places@ == before,
            in_order(before),
            at <= before.len(),
            forall|i: int|
                at <= i < before.len() ==> (#[trigger] before[i]).0 > offset || (before[i].0 == offset
                    && before[i].1 > lsn),
        decreases at,
    {
        at -= 1;
    }
    places.insert(at, (offset, lsn));
    proof {
        let after = places@;
        assert forall|i: int, j: int| 0 <= i < j < after.len() implies (#[trigger] after[i]).0 < (
        #[trigger] after[j]).0 || (after[i].0 == after[j].0 && after[i].1 < after[j].1) by {
            if j < at {
                assert(after[i] == before[i] && after[j] == before[j]);
            } else if i < at && j == at {
                assert(after[i] == before[i]);
                if i < at - 1 {
                    assert(before[i].0 < before[at - 1].0 || (before[i].0 == before[at - 1].0
                        && before[i].1 < before[at - 1].1));
                }
                assert(before[at - 1].1 != lsn);
            } else if i < at {
                assert(after[i] == before[i] && after[j] == before[j - 1]);
            } else if i == at {
                assert(after[j] == before[j - 1]);
            } else {
                assert(after[i] == before[i - 1] && after[j] == before[j - 1]);
            }
        }
        assert forall|p: (u64, u64)| #[trigger] after.contains(p) <==> before.contains(p) || p == (
            offset,
            lsn,
        ) by {
            if after.contains(p) {
                let i = choose|i: int| 0 <= i < after.len() && after[i] == p;
                if i < at {
                    assert(before[i] == p);
                } else if i > at {
                    assert(before[i - 1] == p);
                }
            }
            if before.contains(p) {
                let i = choose|i: int| 0 <= i < before.len() && before[i] == p;
                if i < at {
                    assert(after[i] == p);
                } else {
                    assert(after[i + 1] == p);
                }
            }
            if p == (offset, lsn) {
                assert(after[at as int] == p);
            }
        }
    }
}

impl<F> Inner<F> {
    /// Whether a compaction of segment `seg` would reclaim bytes.
    fn can_reclaim(&self, seg: u64, horizon: Lsn) -> (r: bool)
        requires
            self.wf(),
        ensures
            r == reclaimable(self.layout(), seg, horizon),
    {
        let live = self.live_lsns(seg);
        let lsns = keys_of(&self.put_locations);
        let ghost l = self.layout();
        for i in 0..lsns.len()
            invariant
                l == self.layout(),
                lists(lsns@, self.put_locations@.dom()),
                forall|lsn: u64| #[trigger] live@.contains(lsn) <==> is_live(l.index, seg, lsn),
                forall|j: int|
                    0 <= j < i ==> !(dropped(l, seg, horizon, #[trigger] lsns@[j])
                        && l.puts[lsns@[j]].len > 0),
        {
            let lsn: u64 = lsns[i];
            assert(lsns@.contains(lsn));
            assert(self.put_locations@.dom().contains(lsn));
            if let Some(p) = self.put_locations.get(&lsn) {
                assert(l.puts[lsn] == p@);
                if p.seg == seg && !live.contains(&lsn) && lsn <= horizon && p.len > 0 {
                    assert(dropped(l, seg, horizon, lsn));
                    return true;
                }
            }
        }
        proof {
            if reclaimable(l, seg, horizon) {
                let lsn = choose|lsn: u64| #[trigger]
                    dropped(l, seg, horizon, lsn) && l.puts[lsn].len > 0;
                assert(self.put_locations@.dom().contains(lsn));
                let j = choose|j: int| 0 <= j < lsns@.len() && lsns@[j] == lsn;
                assert(dropped(l, seg, horizon, lsns@[j]));
            }
        }
        false
    }

    /// The segment that a compaction rewrites.
    fn choose_segment(&self, horizon: Lsn) -> (seg: Option<u64>)
        requires
            self.wf(),
        ensures
            match seg {
                Some(s) => chosen(self.layout(), horizon, s),
                None => forall|s: u64| !#[trigger] chosen(self.layout(), horizon, s),
            },
    {
        let ghost l = self.layout();
        for i in 0..self.sealed.len()
            invariant
                self.wf(),
                l == self.layout(),
                forall|j: int| 0 <= j < i ==> !reclaimable(l, #[trigger] l.sealed[j], horizon),
        {
            let id: u64 = self.sealed[i];
            if self.can_reclaim(id, horizon) {
                assert(l.sealed[i as int] == id);
                return Some(id);
            }
        }
        None
    }

    /// Offset and LSN of the values of segment `seg` that a compaction keeps,
    /// in order, and the LSNs of those that it drops, with their bytes.
    fn sort_out(&self, seg: u64, horizon: Lsn) -> (out: (Vec<(u64, u64)>, Vec<Lsn>, u64))
        requires
            self.wf(),
        ensures
            keeps(self.layout(), seg, horizon, out.0@),
            increasing(out.1@),
            forall|lsn: u64| #[trigger]
                out.1@.contains(lsn) <==> dropped(self.layout(), seg, horizon, lsn),
            out.2 == (if puts_len(self.layout(), out.1@) <= u64::MAX {
                puts_len(self.layout(), out.1@)
            } else {
                u64::MAX as nat
            }),
    {
        let live = self.live_lsns(seg);
        let lsns = keys_of(&self.put_locations);
        let ghost l = self.layout();
        let mut places: Vec<(u64, u64)> = Vec::new();
        let mut gone: Vec<Lsn> = Vec::new();
        let mut freed: u64 = 0;
        for i in 0..lsns.len()
            invariant
                l == self.layout(),
                lists(lsns@, self.put_locations@.dom()),
                forall|lsn: u64| #[trigger] live@.contains(lsn) <==> is_live(l.index, seg, lsn),
                in_order(places@),
                forall|j: int|
                    0 <= j < places@.len() ==> kept(l, seg, horizon, (#[trigger] places@[j]).1)
                        && l.puts[places@[j].1].offset == places@[j].0 && (i < lsns@.len()
                        ==> places@[j].1 < lsns@[i as int]),
                forall|j: int|
                    0 <= j < i && kept(l, seg, horizon, #[trigger] lsns@[j]) ==> places@.contains(
                        (l.puts[lsns@[j]].offset, lsns@[j]),
                    ),
                increasing(gone@),
                forall|j: int|
                    0 <= j < gone@.len() ==> dropped(l, seg, horizon, #[trigger] gone@[j]) && (i
                        < lsns@.len() ==> gone@[j] < lsns@[i as int]),
                forall|j: int|
                    0 <= j < i && dropped(l, seg, horizon, #[trigger] lsns@[j]) ==> gone@.contains(
                        lsns@[j],
                    ),
                freed == (if puts_len(l, gone@) <= u64::MAX {
                    puts_len(l, gone@)
                } else {
                    u64::MAX as nat
                }),
        {
            let lsn: u64 = lsns[i];
            assert(lsns@.contains(lsn));
            assert(self.put_locations@.dom().contains(lsn));
            let ghost places_before = places@;
            let ghost gone_before = gone@;
            if let Some(p) = self.put_locations.get(&lsn) {
                assert(l.puts[lsn] == p@);
                if p.seg == seg {
                    if live.contains(&lsn) || lsn > horizon {
                        insert_place(&mut places, p.offset, lsn);
                        assert(places@.contains((p.offset, lsn)));
                    } else {
                        gone.push(lsn);
                        assert(gone@.drop_last() =~= gone_before);
                        assert(gone@[gone_before.len() as int] == lsn);
                        freed = if freed <= u64::MAX - p.len as u64 {
                            freed + p.len as u64
                        } else {
                            u64::MAX
                        };
                    }
                }
            }
            proof {
                assert forall|j: int| 0 <= j < places@.len() implies kept(
                    l,
                    seg,
                    horizon,
                    (#[trigger] places@[j]).1,
                ) && l.puts[places@[j].1].offset == places@[j].0 && (i + 1 < lsns@.len()
                    ==> places@[j].1 < lsns@[i + 1]) by {
                    assert(places@.contains(places@[j]));
                    if places_before.contains(places@[j]) {
                        let k = choose|k: int|
                            0 <= k < places_before.len() && places_before[k] == places@[j];
                        assert(places_before[k].1 < lsns@[i as int]);
                    }
                }
                assert forall|j: int|
                    0 <= j < i + 1 && kept(l, seg, horizon, #[trigger] lsns@[j]) implies places@.contains(
                    (l.puts[lsns@[j]].offset, lsns@[j]),
                ) by {
                    if j < i {
                        assert(places_before.contains((l.puts[lsns@[j]].offset, lsns@[j])));
                    }
                }
                assert forall|j: int|
                    0 <= j < i + 1 && dropped(l, seg, horizon, #[trigger] lsns@[j]) implies gone@.contains(
                    lsns@[j],
                ) by {
                    if j < i {
                        let k = choose|k: int|
                            0 <= k < gone_before.len() && gone_before[k] == lsns@[j];
                        assert(gone@[k] == lsns@[j]);
                    }
                }
                assert forall|j: int| 0 <= j < gone@.len() implies dropped(
                    l,
                    seg,
                    horizon,
                    #[trigger] gone@[j],
                ) && (i + 1 < lsns@.len() ==> gone@[j] < lsns@[i + 1]) by {
                    if j < gone_before.len() {
                        assert(gone@[j] == gone_before[j]);
                    }
                }
            }
        }
        proof {
            assert forall|lsn: u64| #[trigger] kept(l, seg, horizon, lsn) implies places@.contains(
                (l.puts[lsn].offset, lsn),
            ) by {
                assert(self.put_locations@.dom().contains(lsn));
                let j = choose|j: int| 0 <= j < lsns@.len() && lsns@[j] == lsn;
                assert(kept(l, seg, horizon, lsns@[j]));
            }
            assert forall|lsn: u64| #[trigger] gone@.contains(lsn) <==> dropped(l, seg, horizon, lsn) by {
                if dropped(l, seg, horizon, lsn) {
                    assert(self.put_locations@.dom().contains(lsn));
                    let j = choose|j: int| 0 <= j < lsns@.len() && lsns@[j] == lsn;
                    assert(dropped(l, seg, horizon, lsns@[j]));
                }
                if gone@.contains(lsn) {
                    let j = choose|j: int| 0 <= j < gone@.len() && gone@[j] == lsn;
                    assert(dropped(l, seg, horizon, gone@[j]));
                }
            }
        }
        (places, gone, freed)
    }
}

/// A compaction that is worked out: which segment is rewritten, what stays
/// of it and where, and what goes.
pub struct CompactPlan<F> {
    old_id: u64,
    new_id: u64,
    source: Arc<F>,
    places: Vec<(u64, u64)>,
    entries: Vec<RemapEntry>,
    dropped: Vec<Lsn>,
    freed: u64,
}

/// What a [`CompactPlan`] says.
pub ghost struct PlanModel<F> {
    pub old: u64,
    pub new: u64,
    pub source: F,
    /// Offset and LSN of what stays, in order.
    pub places: Seq<(u64, u64)>,
    /// What stays, with its new place.
    pub entries: Seq<EntryModel>,
    /// The puts whose values go.
    pub dropped: Seq<u64>,
    pub freed: u64,
}

impl<F> PlanModel<F> {
    /// What is to be copied for entry `i`: the offset in the old segment, the
    /// offset in the new one and the length.
    pub open spec fn copy_of(self, i: int) -> (u64, u64, u32) {
        (self.places[i].0, self.entries[i].offset, self.entries[i].len)
    }
}

impl<F> View for CompactPlan<F> {
    type V = PlanModel<F>;

    closed spec fn view(&self) -> PlanModel<F> {
        PlanModel {
            old: self.old_id,
            new: self.new_id,
            source: *self.source,
            places: self.places@,
            entries: entry_models(self.entries@),
            dropped: self.dropped@,
            freed: self.freed,
        }
    }
}

impl<F> CompactPlan<F> {
    pub closed spec fn wf(&self) -> bool {
        &&& self.places@.len() == self.entries@.len()
        &&& forall|i: int|
            0 <= i < self.entries@.len() ==> encode_utf8((#[trigger] self.entries@[i]).key@).len()
                <= REMAP_KEY_MAX
    }

    /// The number of the segment that is rewritten.
    pub fn old_id(&self) -> (id: u64)
        ensures
            id == self@.old,
    {
        self.old_id
    }

    /// The number of the new segment.
    pub fn new_id(&self) -> (id: u64)
        ensures
            id == self@.new,
    {
        self.new_id
    }

    /// The file of the old segment.
    pub fn source(&self) -> (file: Arc<F>)
        ensures
            *file == self@.source,
    {
        super::share(&self.source)
    }

    /// How many values are to be copied.
    pub fn len(&self) -> (n: usize)
        ensures
            n == self@.entries.len(),
    {
        self.entries.len()
    }

    /// What is to be copied for entry `i`: the offset in the old segment, the
    /// offset in the new one and the length.
    pub fn copy(&self, i: usize) -> (c: (u64, u64, u32))
        requires
            self.wf(),
            i < self@.entries.len(),
        ensures
            c == self@.copy_of(i as int),
    {
        (self.places[i].0, self.entries[i].offset, self.entries[i].len)
    }
}

/// `plan` is the compaction that `before` calls for.
pub open spec fn plans<F>(before: State<F>, horizon: u64, plan: PlanModel<F>) -> bool {
    let l = before.layout;
    &&& chosen(l, horizon, plan.old)
    &&& plan.new == before.next_free_id
    &&& before.open.contains_key(plan.old)
    &&& plan.source == before.open[plan.old]
    &&& keeps(l, plan.old, horizon, plan.places)
    &&& stageable(l, plan.places)
    &&& plan.entries == packed(l, plan.places)
    &&& increasing(plan.dropped)
    &&& forall|lsn: u64| #[trigger]
        plan.dropped.contains(lsn) <==> dropped(l, plan.old, horizon, lsn)
    &&& plan.freed == (if puts_len(l, plan.dropped) <= u64::MAX {
        puts_len(l, plan.dropped)
    } else {
        u64::MAX as nat
    })
}

/// The values that a compaction would keep cannot be logged.
pub open spec fn unstageable(l: Layout, seg: u64, horizon: u64) -> bool {
    exists|places: Seq<(u64, u64)>| #[trigger]
        keeps(l, seg, horizon, places) && !stageable(l, places)
}

impl<F> Inner<F> {
    /// The entries for the values at `places`, unless they cannot be logged.
    fn pack(&self, places: &Vec<(u64, u64)>) -> (entries: Option<Vec<RemapEntry>>)
        requires
            forall|i: int|
                0 <= i < places@.len() ==> self.layout().puts.contains_key((#[trigger] places@[i]).1),
        ensures
            entries is Some <==> stageable(self.layout(), places@),
            entries matches Some(es) ==> entry_models(es@) == packed(self.layout(), places@),
    {
        let ghost l = self.layout();
        let mut entries: Vec<RemapEntry> = Vec::new();
        let mut offset: u64 = 0;
        for i in 0..places.len()
            invariant
                l == self.layout(),
                forall|j: int|
                    0 <= j < places@.len() ==> l.puts.contains_key((#[trigger] places@[j]).1),
                offset == places_len(l, places@, i as int),
                entries@.len() == i,
                forall|j: int| 0 <= j < i ==> (#[trigger] entries@[j])@ == packed(l, places@)[j],
                forall|j: int|
                    0 <= j < i ==> encode_utf8(l.puts[(#[trigger] places@[j]).1].key).len()
                        <= REMAP_KEY_MAX,
        {
            let lsn: u64 = places[i].1;
            assert(l.puts.contains_key(places@[i as int].1));
            match self.put_locations.get(&lsn) {
                Some(p) => {
                    assert(l.puts[lsn] == p@);
                    if p.key.as_str().as_bytes().len() > REMAP_KEY_MAX {
                        assert(encode_utf8(l.puts[places@[i as int].1].key).len() > REMAP_KEY_MAX);
                        return None;
                    }
                    if offset > u64::MAX - p.len as u64 {
                        proof {
                            lemma_places_len_grows(l, places@, i + 1, places@.len() as int);
                        }
                        return None;
                    }
                    entries.push(RemapEntry { key: p.key.clone(), lsn, offset, len: p.len });
                    offset += p.len as u64;
                },
                None => {
                    assert(false);
                    return None;
                },
            }
        }
        assert(entry_models(entries@) =~= packed(l, places@));
        Some(entries)
    }
}

pub(crate) proof fn lemma_places_len_grows(l: Layout, places: Seq<(u64, u64)>, i: int, j: int)
    requires
        0 <= i <= j,
    ensures
        places_len(l, places, i) <= places_len(l, places, j),
    decreases j - i,
{
    if i < j {
        lemma_places_len_grows(l, places, i, j - 1);
    }
}

impl<F> Store<F> {
    /// Works out the compaction of one eligible sealed segment, reclaiming
    /// dead values with put LSN <= `horizon`. Gives `None` if no segment has
    /// reclaimable space. The values that stay are to be copied into a
    /// temporary file, which is then fsynced, renamed to the new segment's
    /// name and opened; [`Store::compact_stage`] takes it from there.
    pub fn compact_plan(&mut self, horizon: Lsn) -> (res: Result<
        Option<CompactPlan<F>>,
        StoreError,
    >)
        requires
            old(self).wf(),
            old(self).state().next_free_id < u64::MAX,
        ensures
            final(self).wf(),
            final(self).reader() == old(self).reader(),
            final(self).shown() == old(self).shown(),
            ({
                let before = old(self).state();
                let numbered = State {
                    next_free_id: (before.next_free_id + 1) as u64,
                    ..before
                };
                match res {
                    Ok(None) => {
                        &&& final(self).state() == before
                        &&& forall|s: u64| !#[trigger] chosen(before.layout, horizon, s)
                    },
                    Ok(Some(plan)) => {
                        &&& final(self).state() == numbered
                        &&& plan.wf()
                        &&& plans(before, horizon, plan@)
                    },
                    Err(e) => {
                        &&& final(self).state() == numbered
                        &&& exists|s: u64| #[trigger]
                            chosen(before.layout, horizon, s) && (if before.open.contains_key(s) {
                                e@ == ErrorModel::RecordTooLarge && unstageable(
                                    before.layout,
                                    s,
                                    horizon,
                                )
                            } else {
                                e@ == ErrorModel::Corrupt(
                                    "segment "@ + digits(s as nat) + " not open"@,
                                )
                            })
                    },
                }
            }),
    {
        let old_id: u64 = match self.inner.choose_segment(horizon) {
            Some(id) => id,
            None => {
                return Ok(None);
            },
        };
        let ghost l = self.inner.layout();
        let (places, gone, freed) = self.inner.sort_out(old_id, horizon);
        let source = self.inner.file_of(old_id);
        let packed_entries = self.inner.pack(&places);
        let new_id: u64 = self.inner.next_free_id;
        self.inner.next_free_id = new_id + 1;
        match source {
            Some(source) => match packed_entries {
                Some(entries) => {
                    let ghost es = entry_models(entries@);
                    assert(es.len() == entries@.len() && es == packed(l, places@));
                    assert(stageable(l, places@));
                    assert forall|i: int| 0 <= i < entries@.len() implies encode_utf8(
                        (#[trigger] entries@[i]).key@,
                    ).len() <= REMAP_KEY_MAX by {
                        assert(es[i] == entries@[i]@);
                        let place = places@[i];
                        assert(encode_utf8(l.puts[place.1].key).len() <= REMAP_KEY_MAX);
                    }
                    Ok(
                        Some(
                            CompactPlan {
                                old_id,
                                new_id,
                                source,
                                places,
                                entries,
                                dropped: gone,
                                freed,
                            },
                        ),
                    )
                },
                None => {
                    assert(keeps(l, old_id, horizon, places@) && !stageable(l, places@));
                    Err(StoreError::RecordTooLarge)
                },
            },
            None => {
                let mut msg = "segment ".to_string();
                msg.append(decimal(old_id).as_str());
                msg.append(" not open");
                Err(StoreError::Corrupt(msg))
            },
        }
    }
}

/// The bytes that an entry takes in a record.
pub open spec fn entry_cost(e: EntryModel) -> nat {
    22 + encode_utf8(e.key).len()
}

/// Where a record that starts with entry `i` and has `budget` bytes left for
/// entries ends.
pub open spec fn chunk_end(es: Seq<EntryModel>, i: int, budget: int) -> int
    decreases es.len() - i,
{
    if i >= es.len() || entry_cost(es[i]) > budget {
        i
    } else {
        chunk_end(es, i + 1, budget - entry_cost(es[i]))
    }
}

/// The bytes for entries in one record.
pub const REMAP_BUDGET: usize = 4061;

/// The records that log the entries from `i` on, each as full as it can be.
pub open spec fn remap_records(new: u64, es: Seq<EntryModel>, i: int) -> Seq<RecordModel>
    decreases es.len() - i,
{
    if i >= es.len() {
        Seq::empty()
    } else {
        let j = chunk_end(es, i, REMAP_BUDGET as int);
        if j <= i || j > es.len() {
            Seq::empty()
        } else {
            seq![RecordModel::SegmentRemap { new_segment_id: new, entries: es.subrange(i, j) }]
                + remap_records(new, es, j)
        }
    }
}

/// The records of a compaction.
pub open spec fn compact_records(old: u64, new: u64, es: Seq<EntryModel>) -> Seq<RecordModel> {
    seq![RecordModel::SegmentSwap { old_segment_id: old, new_segment_id: new }] + remap_records(
        new,
        es,
        0,
    )
}

proof fn lemma_chunk(new: u64, es: Seq<EntryModel>, i: int, j: int, budget: int)
    requires
        0 <= i <= j <= es.len(),
        0 <= budget,
        entries_bytes(es.subrange(i, j)).len() + budget <= REMAP_BUDGET,
    ensures
        j <= chunk_end(es, j, budget) <= es.len(),
        encodable(
            RecordModel::SegmentRemap {
                new_segment_id: new,
                entries: es.subrange(i, chunk_end(es, j, budget)),
            },
        ),
    decreases es.len() - j,
{
    lemma_entry_bytes_len(es);
    if j >= es.len() || entry_cost(es[j]) > budget {
    } else {
        let part = es.subrange(i, j + 1);
        assert(part.drop_last() =~= es.subrange(i, j));
        lemma_chunk(new, es, i, j + 1, budget - entry_cost(es[j]));
    }
}

proof fn lemma_chunk_fills(new: u64, es: Seq<EntryModel>, i: int, j: int, budget: int)
    requires
        0 <= i <= j <= es.len(),
        0 <= budget,
        entries_bytes(es.subrange(i, j)).len() + budget == REMAP_BUDGET,
    ensures
        chunk_end(es, j, budget) < es.len() ==> !encodable(
            RecordModel::SegmentRemap {
                new_segment_id: new,
                entries: es.subrange(i, chunk_end(es, j, budget) + 1),
            },
        ),
    decreases es.len() - j,
{
    lemma_entry_bytes_len(es);
    if j < es.len() {
        let part = es.subrange(i, j + 1);
        assert(part.drop_last() =~= es.subrange(i, j));
        if entry_cost(es[j]) <= budget {
            lemma_chunk_fills(new, es, i, j + 1, budget - entry_cost(es[j]));
        }
    }
}

/// The records of a compaction start with the swap. The remaps behind it name
/// the new segment and hold, one after the other, all that has moved; each fits
/// in a block, and none has room for the next entry.
pub proof fn lemma_remaps_are_full(old: u64, new: u64, es: Seq<EntryModel>, i: int)
    requires
        0 <= i < es.len(),
        encode_utf8(es[i].key).len() <= REMAP_KEY_MAX,
    ensures
        compact_records(old, new, es)[0] == (RecordModel::SegmentSwap {
            old_segment_id: old,
            new_segment_id: new,
        }),
        compact_records(old, new, es).skip(1) == remap_records(new, es, 0),
        ({
            let recs = remap_records(new, es, i);
            &&& recs.len() > 0
            &&& recs[0] is SegmentRemap
            &&& recs[0]->SegmentRemap_new_segment_id == new
            &&& encodable(recs[0])
            &&& exists|j: int|
                {
                    &&& i < j <= es.len()
                    &&& recs[0]->SegmentRemap_entries == #[trigger] es.subrange(i, j)
                    &&& recs.skip(1) == remap_records(new, es, j)
                    &&& j < es.len() ==> !encodable(
                        RecordModel::SegmentRemap {
                            new_segment_id: new,
                            entries: es.subrange(i, j + 1),
                        },
                    )
                }
        }),
{
    let recs = remap_records(new, es, i);
    let j = chunk_end(es, i, REMAP_BUDGET as int);
    assert(compact_records(old, new, es).skip(1) =~= remap_records(new, es, 0));
    assert(es.subrange(i, i) =~= Seq::<EntryModel>::empty());
    lemma_chunk(new, es, i, i, REMAP_BUDGET as int);
    lemma_chunk_fills(new, es, i, i, REMAP_BUDGET as int);
    lemma_chunk(new, es, i, i, 0);
    assert(chunk_end(es, i + 1, REMAP_BUDGET - entry_cost(es[i])) >= i + 1) by {
        crate::durability::lemma_chunk_end(es, i + 1, REMAP_BUDGET - entry_cost(es[i]));
    }
    assert(recs == seq![
        RecordModel::SegmentRemap { new_segment_id: new, entries: es.subrange(i, j) },
    ] + remap_records(new, es, j));
    assert(recs.skip(1) =~= remap_records(new, es, j));
    assert(recs[0]->SegmentRemap_entries == es.subrange(i, j));
}

proof fn lemma_entry_bytes_len(es: Seq<EntryModel>)
    ensures
        forall|e: EntryModel| #[trigger] entry_bytes(e).len() == entry_cost(e),
        forall|new: u64, part: Seq<EntryModel>|
            #[trigger] crate::wal::record_bytes(
                RecordModel::SegmentRemap { new_segment_id: new, entries: part },
            ).len() == 11 + entries_bytes(part).len(),
{
    crate::wal::lemma_le_lengths();
}

/// A key is short enough for its value to be moved exactly if a record with that
/// value alone fits in a block.
pub proof fn lemma_longest_key(new: u64, e: EntryModel)
    ensures
        encodable(RecordModel::SegmentRemap { new_segment_id: new, entries: seq![e] })
            <==> encode_utf8(e.key).len() <= REMAP_KEY_MAX,
{
    lemma_entry_bytes_len(seq![e]);
    assert(seq![e].drop_last() =~= Seq::<EntryModel>::empty());
    reveal_with_fuel(entries_bytes, 2);
}

/// A compaction is refused as too large only if the values that it keeps do not
/// fit in one segment, or one of them has a key with which no record fits in a
/// block.
pub proof fn lemma_refused_compaction(
    l: Layout,
    seg: u64,
    horizon: u64,
    places: Seq<(u64, u64)>,
    new: u64,
)
    requires
        keeps(l, seg, horizon, places),
        places.map_values(|p: (u64, u64)| l.puts[p.1].len as int).fold_left(
            0int,
            |sum: int, len: int| sum + len,
        ) <= u64::MAX,
        forall|lsn: u64, offset: u64|
            #[trigger] kept(l, seg, horizon, lsn) ==> encodable(
                RecordModel::SegmentRemap {
                    new_segment_id: new,
                    entries: seq![
                        #[trigger] moved_entry(l.puts[lsn], lsn, offset),
                    ],
                },
            ),
    ensures
        stageable(l, places),
{
    lemma_places_len_is_sum(l, places, places.len() as int);
    assert(places.take(places.len() as int) =~= places);
    assert forall|i: int| 0 <= i < places.len() implies encode_utf8(
        l.puts[(#[trigger] places[i]).1].key,
    ).len() <= REMAP_KEY_MAX by {
        let lsn = places[i].1;
        assert(kept(l, seg, horizon, lsn));
        lemma_longest_key(new, moved_entry(l.puts[lsn], lsn, 0));
    }
}

/// The value of the put `p` at `lsn`, moved to `offset`.
pub open spec fn moved_entry(p: PutModel, lsn: u64, offset: u64) -> EntryModel {
    EntryModel { key: p.key, lsn, offset, len: p.len }
}

proof fn lemma_places_len_is_sum(l: Layout, places: Seq<(u64, u64)>, n: int)
    requires
        0 <= n <= places.len(),
    ensures
        places_len(l, places, n) == places.take(n).map_values(
            |p: (u64, u64)| l.puts[p.1].len as int,
        ).fold_left(0int, |sum: int, len: int| sum + len),
    decreases n,
{
    reveal(Seq::fold_left);
    let lens = |p: (u64, u64)| l.puts[p.1].len as int;
    if n > 0 {
        lemma_places_len_is_sum(l, places, n - 1);
        assert(places.take(n).map_values(lens).drop_last() =~= places.take(n - 1).map_values(lens));
    }
}

/// Splitting the first `k` records off changes nothing.
proof fn lemma_logged_all_push<F>(s: State<F>, recs: Seq<RecordModel>, rec: RecordModel)
    ensures
        s.logged_all(recs.push(rec)) == s.logged_all(recs).logged(
            rec,
            s.logged_all(recs).wal.next_lsn,
        ),
{
    assert(recs.push(rec).drop_last() =~= recs);
}

/// What holds of a state to which records were appended.
proof fn lemma_logged_all<F>(s: State<F>, recs: Seq<RecordModel>)
    requires
        s.wal.next_lsn + recs.len() <= u64::MAX,
    ensures
        s.logged_all(recs).wal.next_lsn == s.wal.next_lsn + recs.len(),
        s.logged_all(recs).wal.buffered.len() == s.wal.buffered.len() + recs.len(),
        s.wal.buffered.is_prefix_of(s.logged_all(recs).wal.buffered),
        s.logged_all(recs) == (State {
            wal: s.logged_all(recs).wal,
            pending: s.logged_all(recs).pending,
            ..s
        }),
    decreases recs.len(),
{
    if recs.len() > 0 {
        lemma_logged_all(s, recs.drop_last());
    }
}

/// A compaction whose records are in the log, waiting for their commit.
pub struct CompactStage<F> {
    pub records: Vec<(Lsn, Record)>,
    pub freed: u64,
    old_id: u64,
    new_id: u64,
    entries: Vec<RemapEntry>,
    dropped: Vec<Lsn>,
    file: Arc<F>,
}

/// What a [`CompactStage`] says.
#[verifier::ext_equal]
pub ghost struct StageModel<F> {
    pub records: Seq<Logged>,
    pub old: u64,
    pub new: u64,
    pub entries: Seq<EntryModel>,
    pub dropped: Seq<u64>,
    pub freed: u64,
    pub file: F,
}

/// The compaction `plan` is logged.
pub open spec fn plan_logged<F>(before: State<F>, plan: PlanModel<F>) -> State<F> {
    before.logged_all(compact_records(plan.old, plan.new, plan.entries))
}

/// What is left to do of the compaction `plan` once it is logged. `file` is the
/// new segment.
pub open spec fn stage_of<F>(before: State<F>, plan: PlanModel<F>, file: F) -> StageModel<F> {
    StageModel {
        records: plan_logged(before, plan).appended_since(before),
        old: plan.old,
        new: plan.new,
        entries: plan.entries,
        dropped: plan.dropped,
        freed: plan.freed,
        file,
    }
}

/// A compaction that was logged and committed is completed.
pub open spec fn stage_done<F>(s: State<F>, stage: StageModel<F>) -> State<F> {
    s.compacted(stage.old, stage.new, stage.file, stage.entries, stage.dropped.to_set())
}

proof fn lemma_logged_in_order<F>(s: State<F>, recs: Seq<RecordModel>)
    requires
        s.wal.next_lsn + recs.len() <= u64::MAX,
    ensures
        s.logged_all(recs).wal.buffered == s.wal.buffered + Seq::new(
            recs.len(),
            |i: int| ((s.wal.next_lsn + i) as u64, recs[i]),
        ),
    decreases recs.len(),
{
    let all = Seq::new(recs.len(), |i: int| ((s.wal.next_lsn + i) as u64, recs[i]));
    if recs.len() > 0 {
        let front = recs.drop_last();
        lemma_logged_in_order(s, front);
        lemma_logged_all(s, front);
        let some = Seq::new(front.len(), |i: int| ((s.wal.next_lsn + i) as u64, front[i]));
        assert(all =~= some.push(((s.wal.next_lsn + front.len()) as u64, recs.last())));
    }
    assert(s.logged_all(recs).wal.buffered =~= s.wal.buffered + all);
}

/// A compaction is logged by the swap and the remaps of what it keeps, in this
/// order, at the next LSNs. What is to be sent, moved, dropped and given back is
/// what was planned. Nothing that is stored changes before it is completed.
pub proof fn lemma_compaction_is_logged<F>(before: State<F>, plan: PlanModel<F>, file: F, i: int)
    requires
        before.wal.next_lsn + compact_records(plan.old, plan.new, plan.entries).len() <= u64::MAX,
        0 <= i < compact_records(plan.old, plan.new, plan.entries).len(),
    ensures
        ({
            let recs = compact_records(plan.old, plan.new, plan.entries);
            let stage = stage_of(before, plan, file);
            &&& stage.records.len() == recs.len()
            &&& stage.records[i] == ((before.wal.next_lsn + i) as u64, recs[i])
            &&& stage.records[0].1 == (RecordModel::SegmentSwap {
                old_segment_id: plan.old,
                new_segment_id: plan.new,
            })
            &&& stage.old == plan.old && stage.new == plan.new && stage.file == file
            &&& stage.entries == plan.entries
            &&& stage.dropped == plan.dropped
            &&& stage.freed == plan.freed
        }),
        plan_logged(before, plan).layout == before.layout,
        plan_logged(before, plan).open == before.open,
{
    let recs = compact_records(plan.old, plan.new, plan.entries);
    lemma_logged_in_order(before, recs);
    lemma_logged_all(before, recs);
    let all = Seq::new(recs.len(), |i: int| ((before.wal.next_lsn + i) as u64, recs[i]));
    assert(stage_of(before, plan, file).records =~= all);
    assert(all[0] == (before.wal.next_lsn, recs[0]));
}

impl<F> View for CompactStage<F> {
    type V = StageModel<F>;

    closed spec fn view(&self) -> StageModel<F> {
        StageModel {
            records: logged_models(self.records@),
            old: self.old_id,
            new: self.new_id,
            entries: entry_models(self.entries@),
            dropped: self.dropped@,
            freed: self.freed,
            file: *self.file,
        }
    }
}

/// Appends `rec` to the log and to the list of records that were appended.
fn log_record<F>(inner: &mut Inner<F>, records: &mut Vec<(Lsn, Record)>, rec: Record)
    requires
        old(inner).wf(),
        old(inner).wal@.next_lsn < u64::MAX,
        encodable(rec@),
    ensures
        final(inner).wf(),
        final(inner).state() == old(inner).state().logged(rec@, old(inner).wal@.next_lsn),
        logged_models(final(records)@) == logged_models(old(records)@).push(
            (old(inner).wal@.next_lsn, rec@),
        ),
{
    let lsn: u64 = inner.wal.next_lsn();
    let appended = inner.wal.append(&rec);
    assert(appended is Ok);
    inner.pending = true;
    assert(inner.state() =~= old(inner).state().logged(rec@, lsn));
    let ghost before = records@;
    records.push((lsn, rec));
    assert(logged_models(before.push((lsn, rec))) =~= logged_models(before).push((lsn, rec@)));
}

impl<F> Store<F> {
    /// Logs a worked-out compaction; `file` is the new segment's, or tells why
    /// there is none. The returned records must be committed (via
    /// [`Store::commit`]) and the stage finalized with
    /// [`Store::compact_commit`].
    pub fn compact_stage(
        &mut self,
        plan: CompactPlan<F>,
        file: Result<Arc<F>, StoreError>,
    ) -> (res: Result<CompactStage<F>, StoreError>)
        requires
            old(self).wf(),
            plan.wf(),
            old(self).state().wal.next_lsn + plan@.entries.len() + 1 <= u64::MAX,
        ensures
            final(self).wf(),
            final(self).reader() == old(self).reader(),
            final(self).shown() == old(self).shown(),
            ({
                let before = old(self).state();
                match file {
                    Err(e) => {
                        &&& final(self).state() == before
                        &&& res == Err::<CompactStage<F>, StoreError>(e)
                    },
                    Ok(f) => {
                        &&& final(self).state() == plan_logged(before, plan@)
                        &&& res matches Ok(stage) && stage@ == stage_of(before, plan@, *f)
                    },
                }
            }),
    {
        let file = file?;
        let ghost before = self.inner.state();
        let ghost es = plan@.entries;
        let ghost all = compact_records(plan@.old, plan@.new, es);
        let old_id: u64 = plan.old_id;
        let new_id: u64 = plan.new_id;
        let entries = plan.entries;
        let mut records: Vec<(Lsn, Record)> = Vec::new();
        let swap = Record::SegmentSwap { old_segment_id: old_id, new_segment_id: new_id };
        proof {
            crate::wal::lemma_fixed_encodable(swap@);
        }
        let ghost mut done: Seq<RecordModel> = Seq::empty();
        proof {
            lemma_logged_all_push(before, done, swap@);
            done = done.push(swap@);
            assert(before.wal.buffered.push((before.wal.next_lsn, swap@)).skip(
                before.wal.buffered.len() as int,
            ) =~= seq![(before.wal.next_lsn, swap@)]);
        }
        log_record(&mut self.inner, &mut records, swap);
        proof {
            assert(logged_models(records@) =~= self.inner.state().appended_since(before));
            assert(all =~= done + remap_records(new_id, es, 0));
        }
        let mut i: usize = 0;
        while i < entries.len()
            invariant
                self.inner.wf(),
                self.published == old(self).published,
                self.snap == old(self).snap,
                entries == plan.entries,
                es == entry_models(entries@),
                forall|k: int|
                    0 <= k < entries@.len() ==> encode_utf8((#[trigger] entries@[k]).key@).len()
                        <= REMAP_KEY_MAX,
                i <= entries@.len(),
                done.len() <= i + 1,
                before.wal.next_lsn + es.len() + 1 <= u64::MAX,
                self.inner.state() == before.logged_all(done),
                all == done + remap_records(new_id, es, i as int),
                logged_models(records@) == self.inner.state().appended_since(before),
            decreases entries@.len() - i,
        {
            let mut budget: usize = REMAP_BUDGET;
            let mut j: usize = i;
            let mut chunk: Vec<RemapEntry> = Vec::new();
            assert(es.subrange(i as int, i as int) =~= Seq::<EntryModel>::empty());
            while j < entries.len() && 22 + entries[j].key.as_str().as_bytes().len() <= budget
                invariant
                    es == entry_models(entries@),
                    i <= j <= entries@.len(),
                    budget <= REMAP_BUDGET,
                    i == j ==> budget == REMAP_BUDGET,
                    forall|k: int|
                        0 <= k < entries@.len() ==> encode_utf8((#[trigger] entries@[k]).key@).len()
                            <= REMAP_KEY_MAX,
                    entry_models(chunk@) == es.subrange(i as int, j as int),
                    chunk_end(es, i as int, REMAP_BUDGET as int) == chunk_end(
                        es,
                        j as int,
                        budget as int,
                    ),
                decreases entries@.len() - j,
            {
                let e = entries[j].copy();
                proof {
                    assert(es[j as int] == entries@[j as int]@);
                    assert(entry_models(chunk@.push(e)) =~= entry_models(chunk@).push(e@));
                    assert(es.subrange(i as int, j + 1) =~= es.subrange(i as int, j as int).push(e@));
                }
                budget -= 22 + entries[j].key.as_str().as_bytes().len();
                chunk.push(e);
                j += 1;
            }
            proof {
                assert(es[i as int] == entries@[i as int]@);
                assert(encode_utf8(entries@[i as int].key@).len() <= REMAP_KEY_MAX);
                if j < entries@.len() {
                    assert(es[j as int] == entries@[j as int]@);
                }
                assert(chunk_end(es, j as int, budget as int) == j);
                assert(j > i);
                lemma_chunk(new_id, es, i as int, i as int, REMAP_BUDGET as int);
            }
            let rec = Record::SegmentRemap { new_segment_id: new_id, entries: chunk };
            let ghost mid = self.inner.state();
            proof {
                lemma_logged_all(before, done);
                lemma_logged_all_push(before, done, rec@);
                assert(done.push(rec@) + remap_records(new_id, es, j as int) =~= done + (
                seq![rec@] + remap_records(new_id, es, j as int)));
                done = done.push(rec@);
            }
            log_record(&mut self.inner, &mut records, rec);
            proof {
                assert(logged_models(records@) =~= self.inner.state().appended_since(before));
            }
            i = j;
        }
        assert(done =~= all);
        Ok(
            CompactStage {
                records,
                freed: plan.freed,
                old_id,
                new_id,
                entries,
                dropped: plan.dropped,
                file,
            },
        )
    }

    /// Finalizes a committed compaction: repoints the index and
    /// put-location map at the replacement segment, drops the old file, and
    /// returns the number of reclaimed bytes. The old segment's file is to be
    /// deleted.
    pub fn compact_commit(&mut self, stage: CompactStage<F>) -> (freed: u64)
        requires
            old(self).wf(),
        ensures
            final(self).wf(),
            final(self).reader() == old(self).reader(),
            final(self).state() == stage_done(old(self).state(), stage@),
            final(self).shown() == shows(final(self).state().snapshot(), old(self).shown()),
            freed == stage@.freed,
    {
        let ghost before = self.inner.state();
        self.inner.repoint_all(&stage.entries, stage.new_id);
        let ghost pointed = self.inner.state();
        let ghost ds = stage.dropped@;
        assert(pointed.layout.puts.remove_keys(ds.take(0).to_set()) =~= pointed.layout.puts);
        for i in 0..stage.dropped.len()
            invariant
                self.inner.wf(),
                self.published == old(self).published,
                self.snap == old(self).snap,
                ds == stage.dropped@,
                self.inner.state() == (State {
                    layout: pointed.layout.forget(ds.take(i as int).to_set()),
                    ..pointed
                }),
        {
            let lsn: u64 = stage.dropped[i];
            let ghost locations = self.inner.put_locations@;
            self.inner.put_locations.remove(&lsn);
            proof {
                assert(put_models(locations.remove(lsn)) =~= put_models(locations).remove(lsn));
                let done = ds.take(i as int);
                let more = ds.take(i + 1);
                assert(more =~= done.push(lsn));
                assert forall|x: u64| #[trigger] more.to_set().contains(x) <==> done.to_set().insert(
                    lsn,
                ).contains(x) by {
                    if done.to_set().contains(x) {
                        let k = choose|k: int| 0 <= k < done.len() && done[k] == x;
                        assert(more[k] == x);
                    }
                    if x == lsn {
                        assert(more[i as int] == x);
                    }
                    if more.to_set().contains(x) && x != lsn {
                        let k = choose|k: int| 0 <= k < more.len() && more[k] == x;
                        assert(done[k] == x);
                        assert(done.contains(x));
                    }
                }
                assert(more.to_set() =~= done.to_set().insert(lsn));
                assert(pointed.layout.puts.remove_keys(more.to_set())
                    =~= pointed.layout.puts.remove_keys(done.to_set()).remove(lsn));
                assert(self.inner.state() =~= (State {
                    layout: pointed.layout.forget(more.to_set()),
                    ..pointed
                }));
            }
        }
        assert(ds.take(ds.len() as int) =~= ds);
        let ghost segments = self.inner.segments@;
        self.inner.segments.remove(&stage.old_id);
        assert(super::handles(segments.remove(stage.old_id)) =~= super::handles(segments).remove(
            stage.old_id,
        ));
        self.inner.attach(stage.new_id, stage.file);
        self.inner.replace(stage.old_id, stage.new_id);
        assert(self.inner.state() =~= before.compacted(
            stage@.old,
            stage@.new,
            stage@.file,
            stage@.entries,
            stage@.dropped.to_set(),
        ));
        self.publish();
        stage.freed
    }
}

} // verus!
