//! What the segments hold: a value that was put is read back until its key is
//! put again, whatever is sealed, compacted or committed in between.

use vstd::prelude::*;

use crate::error::ErrorModel;
use crate::layout::{Layout, Location, PutModel};
use crate::segment::compact::{dropped, is_live, kept, plans, put_in, PlanModel};
use crate::state::State;
use crate::table::{distinct, lemma_put, lemma_slot, lookup, put, slot, Rows};
use crate::visible::{caught_up, lemma_all_visible, lemma_visible, lengths_of};
use crate::wal::EntryModel;

verus! {

/// The contents of each segment's file.
pub type Disk = Map<u64, Seq<u8>>;

/// `file` after a write of `value` at `offset`.
pub open spec fn overwritten(file: Seq<u8>, offset: nat, value: Seq<u8>) -> Seq<u8> {
    Seq::new(
        if file.len() > offset + value.len() {
            file.len()
        } else {
            offset + value.len()
        },
        |i: int|
            if offset <= i < offset + value.len() {
                value[i - offset]
            } else if i < file.len() {
                file[i]
            } else {
                0
            },
    )
}

/// `disk` after a write of `value` at `offset` of segment `seg`.
pub open spec fn written(disk: Disk, seg: u64, offset: u64, value: Seq<u8>) -> Disk {
    disk.insert(
        seg,
        overwritten(
            if disk.contains_key(seg) {
                disk[seg]
            } else {
                Seq::empty()
            },
            offset as nat,
            value,
        ),
    )
}

/// `value` is where `p` says.
pub open spec fn holds(disk: Disk, p: PutModel, value: Seq<u8>) -> bool {
    &&& disk.contains_key(p.seg)
    &&& p.offset + p.len <= disk[p.seg].len()
    &&& disk[p.seg].subrange(p.offset as int, p.offset + p.len) == value
}

/// The value of every put whose segment is on disk is in its place. `vals`
/// are the values that were put, by LSN.
pub open spec fn stored(disk: Disk, l: Layout, vals: Map<u64, Seq<u8>>) -> bool {
    forall|lsn: u64| #[trigger]
        l.puts.contains_key(lsn) && disk.contains_key(l.puts[lsn].seg) ==> vals.contains_key(lsn)
            && holds(disk, l.puts[lsn], vals[lsn])
}

/// The place of the put that an entry of the index names.
pub open spec fn put_at(key: Seq<char>, at: Location) -> PutModel {
    PutModel { key, seg: at.seg, offset: at.offset, len: at.len }
}

/// The index names puts, in segments that are on disk.
pub open spec fn indexed(disk: Disk, l: Layout) -> bool {
    &&& distinct(l.index)
    &&& forall|i: int|
        0 <= i < l.index.len() ==> l.puts.contains_key((#[trigger] l.index[i]).1.lsn)
            && l.puts[l.index[i].1.lsn] == put_at(l.index[i].0, l.index[i].1)
            && disk.contains_key(l.index[i].1.seg)
}

/// Values in the active segment lie before its end.
pub open spec fn tidy(disk: Disk, l: Layout) -> bool {
    forall|lsn: u64| #[trigger]
        l.puts.contains_key(lsn) && l.puts[lsn].seg == l.active_id ==> l.puts[lsn].offset
            + l.puts[lsn].len <= l.active_offset && disk.contains_key(l.active_id)
}

/// Everything that the layout speaks of is in its place.
pub open spec fn sound(disk: Disk, l: Layout, vals: Map<u64, Seq<u8>>) -> bool {
    &&& stored(disk, l, vals)
    &&& indexed(disk, l)
    &&& tidy(disk, l)
    &&& l.live == lengths_of(l.index)
}

/// The value under `key`.
pub open spec fn value_of(l: Layout, vals: Map<u64, Seq<u8>>, key: Seq<char>) -> Option<Seq<u8>> {
    match lookup(l.index, key) {
        Some(at) => Some(vals[at.lsn]),
        None => None,
    }
}

/// Nothing is stored yet.
pub proof fn lemma_empty_is_sound(disk: Disk)
    ensures
        sound(disk, Layout::empty(), Map::empty()),
{
    let l = Layout::empty();
    assert(l.live =~= lengths_of(l.index));
}

proof fn lemma_lengths_slot(index: Rows<Location>, key: Seq<char>)
    ensures
        slot(lengths_of(index), key) == slot(index, key),
    decreases index.len(),
{
    if index.len() > 0 {
        assert(lengths_of(index).drop_last() =~= lengths_of(index.drop_last()));
        assert(lengths_of(index).last().0 == index.last().0);
        if index.last().0 != key {
            lemma_lengths_slot(index.drop_last(), key);
        }
    }
}

proof fn lemma_lengths_put(index: Rows<Location>, key: Seq<char>, at: Location)
    ensures
        lengths_of(put(index, key, at)) == put(lengths_of(index), key, at.len as u64),
{
    lemma_lengths_slot(index, key);
    lemma_slot(index, key);
    assert(lengths_of(put(index, key, at)) =~= put(lengths_of(index), key, at.len as u64));
}

/// A written value is read back where it was written.
proof fn lemma_overwritten(file: Seq<u8>, offset: nat, value: Seq<u8>)
    ensures
        offset + value.len() <= overwritten(file, offset, value).len(),
        overwritten(file, offset, value).subrange(offset as int, (offset + value.len()) as int)
            == value,
        overwritten(file, offset, value).len() >= file.len(),
        forall|i: int|
            0 <= i < file.len() && i < offset ==> #[trigger] overwritten(file, offset, value)[i]
                == file[i],
{
    assert(overwritten(file, offset, value).subrange(
        offset as int,
        (offset + value.len()) as int,
    ) =~= value);
}

/// A put writes its value where no other value is: every value stays in its
/// place, and the new one is read back under its key.
pub proof fn lemma_put_is_stored(
    disk: Disk,
    l: Layout,
    vals: Map<u64, Seq<u8>>,
    key: Seq<char>,
    value: Seq<u8>,
    lsn: u64,
)
    requires
        sound(disk, l, vals),
        value.len() <= u32::MAX,
        l.active_offset + value.len() <= u64::MAX,
        !l.puts.contains_key(lsn),
    ensures
        ({
            let after = l.put(key, value.len() as u32, lsn);
            let vals2 = vals.insert(lsn, value);
            &&& sound(written(disk, l.active_id, l.active_offset, value), after, vals2)
            &&& value_of(after, vals2, key) == Some(value)
            &&& forall|k: Seq<char>| k != key ==> #[trigger] value_of(after, vals2, k) == value_of(
                l,
                vals,
                k,
            )
        }),
{
    let len = value.len() as u32;
    let after = l.put(key, len, lsn);
    let vals2 = vals.insert(lsn, value);
    let seg = l.active_id;
    let at = Location { seg, offset: l.active_offset, len, lsn };
    let disk2 = written(disk, seg, l.active_offset, value);
    let was = if disk.contains_key(seg) {
        disk[seg]
    } else {
        Seq::empty()
    };
    lemma_overwritten(was, l.active_offset as nat, value);
    assert forall|x: u64| #[trigger]
        after.puts.contains_key(x) && disk2.contains_key(
            after.puts[x].seg,
        ) implies vals2.contains_key(x) && holds(disk2, after.puts[x], vals2[x]) by {
        if x != lsn {
            let p = l.puts[x];
            assert(l.puts.contains_key(x));
            if p.seg == seg {
                assert(p.offset + p.len <= l.active_offset);
                assert(disk2[seg].subrange(p.offset as int, p.offset + p.len)
                    =~= disk[seg].subrange(p.offset as int, p.offset + p.len));
            }
        }
    }
    lemma_put(l.index, key, at, key);
    lemma_slot(l.index, key);
    assert forall|i: int| 0 <= i < after.index.len() implies after.puts.contains_key(
        (#[trigger] after.index[i]).1.lsn,
    ) && after.puts[after.index[i].1.lsn] == put_at(after.index[i].0, after.index[i].1)
        && disk2.contains_key(after.index[i].1.seg) by {
        if after.index[i] != (key, at) {
            assert(after.index[i] == l.index[i]);
        }
    }
    lemma_lengths_put(l.index, key, at);
    assert forall|k: Seq<char>| k != key implies #[trigger] value_of(after, vals2, k) == value_of(
        l,
        vals,
        k,
    ) by {
        lemma_put(l.index, key, at, k);
        lemma_slot(l.index, k);
        if let Some(a) = lookup(l.index, k) {
            assert(l.puts.contains_key(l.index[slot(l.index, k)].1.lsn));
        }
    }
}

/// Bytes behind the end of the active segment are in the way of no value.
pub proof fn lemma_stray_bytes(disk: Disk, l: Layout, vals: Map<u64, Seq<u8>>, stray: Seq<u8>)
    requires
        sound(disk, l, vals),
    ensures
        sound(written(disk, l.active_id, l.active_offset, stray), l, vals),
{
    let seg = l.active_id;
    let disk2 = written(disk, seg, l.active_offset, stray);
    let was = if disk.contains_key(seg) {
        disk[seg]
    } else {
        Seq::empty()
    };
    lemma_overwritten(was, l.active_offset as nat, stray);
    assert forall|x: u64| #[trigger]
        l.puts.contains_key(x) && disk2.contains_key(l.puts[x].seg) implies vals.contains_key(x)
        && holds(disk2, l.puts[x], vals[x]) by {
        let p = l.puts[x];
        if p.seg == seg {
            assert(p.offset + p.len <= l.active_offset);
            assert(disk2[seg].subrange(p.offset as int, p.offset + p.len)
                =~= disk[seg].subrange(p.offset as int, p.offset + p.len));
        }
    }
}

/// Sealing a segment moves no value.
pub proof fn lemma_seal_keeps_values(
    disk: Disk,
    l: Layout,
    vals: Map<u64, Seq<u8>>,
    id: u64,
    next: u64,
)
    requires
        sound(disk, l, vals),
        forall|lsn: u64| #[trigger] l.puts.contains_key(lsn) ==> l.puts[lsn].seg != next,
    ensures
        sound(disk, l.seal(id, next), vals),
        forall|k: Seq<char>| #[trigger]
            value_of(l.seal(id, next), vals, k) == value_of(l, vals, k),
{
}

/// What the index names is read back from the disk.
pub proof fn lemma_value_is_read<F>(
    s: State<F>,
    disk: Disk,
    vals: Map<u64, Seq<u8>>,
    key: Seq<char>,
)
    requires
        sound(disk, s.layout, vals),
        caught_up(s.layout),
        forall|seg: u64| #[trigger] disk.contains_key(seg) ==> s.open.contains_key(seg),
    ensures
        match value_of(s.layout, vals, key) {
            Some(value) => {
                let at = lookup(s.layout.index, key).unwrap();
                &&& s.snapshot().read(key) == Ok::<
                    Option<(F, u64, u32)>,
                    ErrorModel,
                >(Some((s.open[at.seg], at.offset, at.len)))
                &&& at.offset + at.len <= disk[at.seg].len()
                &&& disk[at.seg].subrange(at.offset as int, at.offset + at.len) == value
            },
            None => s.snapshot().read(key) == Ok::<
                Option<(F, u64, u32)>,
                ErrorModel,
            >(None),
        },
{
    lemma_all_visible(s.layout.index, s.layout.puts, s.layout.committed_lsn);
    lemma_slot(s.layout.index, key);
    if let Some(at) = lookup(s.layout.index, key) {
        let i = slot(s.layout.index, key);
        assert(s.layout.index[i].1 == at);
        assert(s.layout.puts.contains_key(at.lsn));
    }
}

/// The entry that moves the value of the put at `lsn`.
pub open spec fn entry_of(es: Seq<EntryModel>, lsn: u64) -> Option<EntryModel>
    decreases es.len(),
{
    if es.len() == 0 {
        None
    } else if es.last().lsn == lsn {
        Some(es.last())
    } else {
        entry_of(es.drop_last(), lsn)
    }
}

/// The entries name puts in segment `old`, by their keys and lengths.
pub open spec fn names_puts(l: Layout, old: u64, es: Seq<EntryModel>) -> bool {
    forall|i: int|
        0 <= i < es.len() ==> put_in(l, old, (#[trigger] es[i]).lsn) && l.puts[es[i].lsn].key
            == es[i].key && l.puts[es[i].lsn].len == es[i].len
}

pub proof fn lemma_entry_of(es: Seq<EntryModel>, lsn: u64)
    ensures
        match entry_of(es, lsn) {
            Some(e) => e.lsn == lsn && exists|i: int| 0 <= i < es.len() && #[trigger] es[i] == e,
            None => forall|i: int| 0 <= i < es.len() ==> (#[trigger] es[i]).lsn != lsn,
        },
    decreases es.len(),
{
    if es.len() > 0 {
        assert(es[es.len() - 1] == es.last());
        if es.last().lsn != lsn {
            let front = es.drop_last();
            lemma_entry_of(front, lsn);
            match entry_of(front, lsn) {
                Some(e) => {
                    let i = choose|i: int| 0 <= i < front.len() && #[trigger] front[i] == e;
                    assert(es[i] == e);
                },
                None => {
                    assert forall|i: int| 0 <= i < es.len() implies (#[trigger] es[i]).lsn != lsn by {
                        if i < front.len() {
                            assert(front[i] == es[i]);
                        }
                    }
                },
            }
        }
    }
}

/// What moving values does to a layout, place by place.
pub proof fn lemma_repointed(l: Layout, old: u64, new: u64, es: Seq<EntryModel>)
    requires
        distinct(l.index),
        forall|i: int|
            0 <= i < l.index.len() ==> l.puts.contains_key((#[trigger] l.index[i]).1.lsn)
                && l.puts[l.index[i].1.lsn].key == l.index[i].0,
        names_puts(l, old, es),
    ensures
        ({
            let m = l.repoint_all(es, new);
            &&& m == (Layout { index: m.index, puts: m.puts, ..l })
            &&& m.puts.dom() == l.puts.dom()
            &&& forall|lsn: u64|
                l.puts.contains_key(lsn) ==> #[trigger] m.puts[lsn] == (match entry_of(es, lsn) {
                    Some(e) => PutModel { key: e.key, seg: new, offset: e.offset, len: e.len },
                    None => l.puts[lsn],
                })
            &&& m.index.len() == l.index.len()
            &&& forall|j: int|
                0 <= j < l.index.len() ==> #[trigger] m.index[j] == (
                    l.index[j].0,
                    match entry_of(es, l.index[j].1.lsn) {
                        Some(e) => Location { seg: new, offset: e.offset, len: e.len, lsn: e.lsn },
                        None => l.index[j].1,
                    },
                )
        }),
    decreases es.len(),
{
    let m = l.repoint_all(es, new);
    if es.len() > 0 {
        let front = es.drop_last();
        let e = es.last();
        assert forall|i: int| 0 <= i < front.len() implies put_in(l, old, (#[trigger] front[i]).lsn)
            && l.puts[front[i].lsn].key == front[i].key && l.puts[front[i].lsn].len
            == front[i].len by {
            assert(front[i] == es[i]);
        }
        lemma_repointed(l, old, new, front);
        let b = l.repoint_all(front, new);
        assert(es[es.len() - 1] == e);
        assert(put_in(l, old, e.lsn));
        assert(m == b.repoint(e, new));
        assert(m.puts.dom() =~= l.puts.dom());
        lemma_slot(b.index, e.key);
        lemma_slot(l.index, e.key);
        let k = slot(b.index, e.key);
        assert forall|j: int| 0 <= j < l.index.len() implies #[trigger] m.index[j] == (
            l.index[j].0,
            match entry_of(es, l.index[j].1.lsn) {
                Some(x) => Location { seg: new, offset: x.offset, len: x.len, lsn: x.lsn },
                None => l.index[j].1,
            },
        ) by {
            lemma_entry_of(front, l.index[j].1.lsn);
            assert(b.index[j].0 == l.index[j].0);
            assert(b.index[j].1.lsn == l.index[j].1.lsn);
            if l.index[j].1.lsn == e.lsn {
                assert(l.index[j].0 == e.key);
                if k < 0 {
                    assert(b.index[j].0 != e.key);
                } else if k != j {
                    assert(b.index[k].0 == l.index[k].0);
                    if k < j {
                        assert(l.index[k].0 != l.index[j].0);
                    } else {
                        assert(l.index[j].0 != l.index[k].0);
                    }
                }
            } else if k == j {
                assert(b.index[k].1.lsn != e.lsn);
            }
        }
    } else {
        assert(m.index =~= l.index);
    }
}

/// Segment `new` takes the place of `old`: `es` are copied into it, and of
/// the rest of `old` nothing is live.
pub open spec fn copies(
    disk: Disk,
    l: Layout,
    old: u64,
    new: u64,
    es: Seq<EntryModel>,
    file: Seq<u8>,
) -> bool {
    &&& old != new && old != l.active_id && new != l.active_id
    &&& disk.contains_key(old)
    &&& forall|lsn: u64| #[trigger] l.puts.contains_key(lsn) ==> l.puts[lsn].seg != new
    &&& names_puts(l, old, es)
    &&& forall|i: int|
        0 <= i < l.index.len() && (#[trigger] l.index[i]).1.seg == old ==> entry_of(
            es,
            l.index[i].1.lsn,
        ) is Some
    &&& forall|i: int|
        0 <= i < es.len() ==> (#[trigger] es[i]).offset + es[i].len <= file.len() && file.subrange(
            es[i].offset as int,
            es[i].offset + es[i].len,
        ) == disk[old].subrange(
            l.puts[es[i].lsn].offset as int,
            l.puts[es[i].lsn].offset + es[i].len,
        )
}

/// No key reads the put at `lsn`.
pub open spec fn dead(l: Layout, lsn: u64) -> bool {
    forall|i: int| 0 <= i < l.index.len() ==> (#[trigger] l.index[i]).1.lsn != lsn
}

/// Replacing a segment by a copy of what is live in it changes no value.
pub proof fn lemma_replacement_keeps_values(
    disk: Disk,
    l: Layout,
    vals: Map<u64, Seq<u8>>,
    old: u64,
    new: u64,
    es: Seq<EntryModel>,
    gone: Set<u64>,
    file: Seq<u8>,
)
    requires
        sound(disk, l, vals),
        copies(disk, l, old, new, es, file),
        forall|lsn: u64| #[trigger] gone.contains(lsn) ==> dead(l, lsn),
    ensures
        ({
            let after = l.repoint_all(es, new).forget(gone).replace(old, new);
            &&& sound(disk.insert(new, file).remove(old), after, vals)
            &&& forall|k: Seq<char>| #[trigger] value_of(after, vals, k) == value_of(l, vals, k)
            &&& after.live == l.live
        }),
{
    lemma_repointed(l, old, new, es);
    let m = l.repoint_all(es, new);
    let after = m.forget(gone).replace(old, new);
    let disk2 = disk.insert(new, file).remove(old);
    assert forall|lsn: u64| #[trigger]
        after.puts.contains_key(lsn) && disk2.contains_key(
            after.puts[lsn].seg,
        ) implies vals.contains_key(lsn) && holds(disk2, after.puts[lsn], vals[lsn]) by {
        assert(m.puts.dom().contains(lsn));
        assert(l.puts.contains_key(lsn));
        lemma_entry_of(es, lsn);
        match entry_of(es, lsn) {
            Some(e) => {
                let i = choose|i: int| 0 <= i < es.len() && #[trigger] es[i] == e;
                assert(put_in(l, old, es[i].lsn));
                assert(holds(disk, l.puts[lsn], vals[lsn]));
            },
            None => {
                assert(after.puts[lsn] == l.puts[lsn]);
            },
        }
    }
    assert(distinct(after.index)) by {
        assert forall|i: int, j: int| 0 <= i < j < after.index.len() implies (
        #[trigger] after.index[i]).0 != (#[trigger] after.index[j]).0 by {
            assert(l.index[i].0 != l.index[j].0);
        }
    }
    assert forall|i: int| 0 <= i < after.index.len() implies after.puts.contains_key(
        (#[trigger] after.index[i]).1.lsn,
    ) && after.puts[after.index[i].1.lsn] == put_at(after.index[i].0, after.index[i].1)
        && disk2.contains_key(after.index[i].1.seg) by {
        let r = l.index[i];
        assert(l.puts.contains_key(r.1.lsn) && l.puts[r.1.lsn] == put_at(r.0, r.1));
        lemma_entry_of(es, r.1.lsn);
        if gone.contains(r.1.lsn) {
            assert(dead(l, r.1.lsn));
        }
        assert(m.puts.dom().contains(r.1.lsn));
        match entry_of(es, r.1.lsn) {
            Some(e) => {
                let j = choose|j: int| 0 <= j < es.len() && #[trigger] es[j] == e;
                assert(put_in(l, old, es[j].lsn));
            },
            None => {},
        }
    }
    assert forall|lsn: u64| #[trigger]
        after.puts.contains_key(lsn) && after.puts[lsn].seg
            == after.active_id implies after.puts[lsn].offset + after.puts[lsn].len
        <= after.active_offset && disk2.contains_key(after.active_id) by {
        assert(m.puts.dom().contains(lsn));
        assert(l.puts.contains_key(lsn));
    }
    assert(after.live =~= lengths_of(after.index)) by {
        assert forall|i: int| 0 <= i < l.index.len() implies lengths_of(l.index)[i] == lengths_of(
            after.index,
        )[i] by {
            let r = l.index[i];
            assert(l.puts.contains_key(r.1.lsn) && l.puts[r.1.lsn] == put_at(r.0, r.1));
            lemma_entry_of(es, r.1.lsn);
            if let Some(e) = entry_of(es, r.1.lsn) {
                let j = choose|j: int| 0 <= j < es.len() && #[trigger] es[j] == e;
                assert(put_in(l, old, es[j].lsn));
            }
            assert(after.index[i].1.len == r.1.len);
        }
    }
    assert forall|k: Seq<char>| #[trigger] value_of(after, vals, k) == value_of(l, vals, k) by {
        lemma_same_slots(l.index, after.index, k);
        lemma_slot(l.index, k);
        if slot(l.index, k) >= 0 {
            let r = l.index[slot(l.index, k)];
            lemma_entry_of(es, r.1.lsn);
            assert(after.index[slot(l.index, k)].1.lsn == r.1.lsn);
        }
    }
}

pub(crate) proof fn lemma_same_slots(a: Rows<Location>, b: Rows<Location>, key: Seq<char>)
    requires
        a.len() == b.len(),
        forall|i: int| 0 <= i < a.len() ==> (#[trigger] a[i]).0 == b[i].0,
    ensures
        slot(a, key) == slot(b, key),
    decreases a.len(),
{
    if a.len() > 0 {
        assert(a[a.len() - 1].0 == b[b.len() - 1].0);
        if a.last().0 != key {
            assert forall|i: int| 0 <= i < a.len() - 1 implies (#[trigger] a.drop_last()[i]).0
                == b.drop_last()[i].0 by {
                assert(a[i].0 == b[i].0);
            }
            lemma_same_slots(a.drop_last(), b.drop_last(), key);
        }
    }
}

/// `file` holds what a compaction keeps, packed as the plan says.
pub open spec fn holds_copies<F>(disk: Disk, plan: PlanModel<F>, l: Layout, file: Seq<u8>) -> bool {
    forall|i: int|
        0 <= i < plan.entries.len() ==> (#[trigger] plan.entries[i]).offset + plan.entries[i].len
            <= file.len() && file.subrange(
            plan.entries[i].offset as int,
            plan.entries[i].offset + plan.entries[i].len,
        ) == disk[plan.old].subrange(
            plan.places[i].0 as int,
            plan.places[i].0 + plan.entries[i].len,
        )
}

/// A compaction copies everything that is live in the segment that it
/// rewrites. What it drops no key reads, and lies at or below the horizon.
pub proof fn lemma_plan_copies<F>(
    before: State<F>,
    horizon: u64,
    plan: PlanModel<F>,
    disk: Disk,
    vals: Map<u64, Seq<u8>>,
    file: Seq<u8>,
)
    requires
        plans(before, horizon, plan),
        sound(disk, before.layout, vals),
        disk.contains_key(plan.old),
        plan.old != before.layout.active_id,
        plan.new != plan.old,
        plan.new != before.layout.active_id,
        forall|lsn: u64| #[trigger]
            before.layout.puts.contains_key(lsn) ==> before.layout.puts[lsn].seg != plan.new,
        holds_copies(disk, plan, before.layout, file),
    ensures
        copies(disk, before.layout, plan.old, plan.new, plan.entries, file),
        forall|lsn: u64| #[trigger]
            plan.dropped.contains(lsn) ==> dead(before.layout, lsn) && lsn <= horizon
                && before.layout.puts.contains_key(lsn),
{
    let l = before.layout;
    let es = plan.entries;
    assert forall|i: int| 0 <= i < es.len() implies put_in(l, plan.old, (#[trigger] es[i]).lsn)
        && l.puts[es[i].lsn].key == es[i].key && l.puts[es[i].lsn].len == es[i].len
        && l.puts[es[i].lsn].offset == plan.places[i].0 by {
        assert(kept(l, plan.old, horizon, plan.places[i].1));
    }
    assert forall|i: int| 0 <= i < l.index.len() && (#[trigger] l.index[i]).1.seg
        == plan.old implies entry_of(es, l.index[i].1.lsn) is Some by {
        let lsn = l.index[i].1.lsn;
        assert(l.puts.contains_key(lsn));
        assert(is_live(l.index, plan.old, lsn));
        assert(kept(l, plan.old, horizon, lsn));
        assert(plan.places.contains((l.puts[lsn].offset, lsn)));
        let j = choose|j: int|
            0 <= j < plan.places.len() && plan.places[j] == (l.puts[lsn].offset, lsn);
        lemma_entry_of(es, lsn);
        assert(es[j].lsn == lsn);
    }
    assert forall|lsn: u64| #[trigger] plan.dropped.contains(lsn) implies dead(l, lsn) && lsn
        <= horizon && l.puts.contains_key(lsn) by {
        assert(dropped(l, plan.old, horizon, lsn));
        assert forall|i: int| 0 <= i < l.index.len() implies (#[trigger] l.index[i]).1.lsn
            != lsn by {
            if l.index[i].1.lsn == lsn {
                assert(l.puts[lsn] == put_at(l.index[i].0, l.index[i].1));
                assert(is_live(l.index, plan.old, lsn));
            }
        }
    }
}

/// A put between the planning of a compaction and its end does not get in its
/// way.
pub proof fn lemma_put_keeps_copies(
    disk: Disk,
    l: Layout,
    old: u64,
    new: u64,
    es: Seq<EntryModel>,
    gone: Set<u64>,
    file: Seq<u8>,
    key: Seq<char>,
    value: Seq<u8>,
    lsn: u64,
)
    requires
        distinct(l.index),
        copies(disk, l, old, new, es, file),
        forall|x: u64| #[trigger] gone.contains(x) ==> dead(l, x) && l.puts.contains_key(x),
        !l.puts.contains_key(lsn),
    ensures
        ({
            let after = l.put(key, value.len() as u32, lsn);
            &&& copies(
                written(disk, l.active_id, l.active_offset, value),
                after,
                old,
                new,
                es,
                file,
            )
            &&& forall|x: u64| #[trigger]
                gone.contains(x) ==> dead(after, x) && after.puts.contains_key(x)
        }),
{
    let after = l.put(key, value.len() as u32, lsn);
    let at = Location { seg: l.active_id, offset: l.active_offset, len: value.len() as u32, lsn };
    lemma_slot(l.index, key);
    assert forall|i: int| 0 <= i < es.len() implies put_in(after, old, (#[trigger] es[i]).lsn)
        && after.puts[es[i].lsn] == l.puts[es[i].lsn] by {
        assert(put_in(l, old, es[i].lsn));
    }
    assert forall|i: int| 0 <= i < after.index.len() && (#[trigger] after.index[i]).1.seg
        == old implies entry_of(es, after.index[i].1.lsn) is Some by {
        assert(after.index[i] == l.index[i]);
    }
    assert forall|x: u64| #[trigger] gone.contains(x) implies dead(after, x)
        && after.puts.contains_key(x) by {
        assert(dead(l, x));
        assert forall|i: int| 0 <= i < after.index.len() implies (#[trigger] after.index[i]).1.lsn
            != x by {
            if after.index[i] != (key, at) {
                assert(after.index[i] == l.index[i]);
            }
        }
    }
}

/// LSNs and segment numbers that were not used yet lie above those in use.
pub open spec fn numbered<F>(s: State<F>) -> bool {
    forall|lsn: u64| #[trigger]
        s.layout.puts.contains_key(lsn) ==> lsn < s.wal.next_lsn && s.layout.puts[lsn].seg
            < s.next_free_id
}

/// Read-your-writes: once a put is committed, by a commit of everything up to
/// its LSN or beyond, a read up to that commit finds its value under its key;
/// and under every other key is what was there before.
pub proof fn lemma_read_your_writes<F>(
    s: State<F>,
    disk: Disk,
    vals: Map<u64, Seq<u8>>,
    key: Seq<char>,
    value: Seq<u8>,
    upto: u64,
    commit_index: u64,
)
    requires
        sound(disk, s.layout, vals),
        numbered(s),
        s.active_open(),
        s.layout.active_id < s.next_free_id,
        forall|seg: u64| #[trigger] disk.contains_key(seg) ==> s.open.contains_key(seg),
        value.len() <= u32::MAX,
        s.layout.active_offset + value.len() <= u64::MAX,
        s.wal.next_lsn <= commit_index,
        s.wal.next_lsn <= upto,
    ensures
        ({
            let lsn = s.wal.next_lsn;
            let t = s.staged(key, value.len() as u32).committed(upto);
            let disk2 = written(disk, s.layout.active_id, s.layout.active_offset, value);
            let vals2 = vals.insert(lsn, value);
            &&& sound(disk2, t.layout, vals2)
            &&& t.snapshot().read_upto(key, commit_index) == Ok::<
                Option<(F, u64, u32)>,
                ErrorModel,
            >(
                Some(
                    (
                        s.open[s.layout.active_id],
                        s.layout.active_offset,
                        value.len() as u32,
                    ),
                ),
            )
            &&& disk2[s.layout.active_id].subrange(
                s.layout.active_offset as int,
                s.layout.active_offset + value.len(),
            ) == value
            &&& value_of(t.layout, vals2, key) == Some(value)
            &&& forall|k: Seq<char>| k != key ==> #[trigger] value_of(t.layout, vals2, k)
                == value_of(s.layout, vals, k)
        }),
{
    let lsn = s.wal.next_lsn;
    let len = value.len() as u32;
    let l = s.layout;
    let t = s.staged(key, len).committed(upto);
    let disk2 = written(disk, l.active_id, l.active_offset, value);
    let vals2 = vals.insert(lsn, value);
    assert(!l.puts.contains_key(lsn));
    lemma_put_is_stored(disk, l, vals, key, value, lsn);
    let put_layout = l.put(key, len, lsn);
    let at = Location { seg: l.active_id, offset: l.active_offset, len, lsn };
    lemma_put(l.index, key, at, key);
    if len > s.max {
        assert forall|x: u64| #[trigger]
            put_layout.puts.contains_key(x) implies put_layout.puts[x].seg != s.next_free_id by {
            if x != lsn {
                assert(l.puts.contains_key(x));
            }
        }
        lemma_seal_keeps_values(disk2, put_layout, vals2, l.active_id, s.next_free_id);
    }
    lemma_overwritten(
        if disk.contains_key(l.active_id) {
            disk[l.active_id]
        } else {
            Seq::empty()
        },
        l.active_offset as nat,
        value,
    );
    assert(t.layout.index == put_layout.index);
    lemma_visible(t.layout.index, t.layout.puts, t.layout.committed_lsn, key);
    assert(sound(disk2, t.layout, vals2));
    assert forall|k: Seq<char>| k != key implies #[trigger] value_of(t.layout, vals2, k)
        == value_of(l, vals, k) by {
        assert(value_of(put_layout, vals2, k) == value_of(l, vals, k));
    }
    assert(value_of(put_layout, vals2, key) == Some(value));
}

} // verus!
