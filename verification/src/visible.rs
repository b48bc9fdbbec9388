//! What readers see: for each key, the newest put that is committed.

use vstd::prelude::*;

use crate::layout::{Layout, Location, PutModel};
use crate::rollup::{byte_count, lemma_root_counts_all};
use crate::state::Published;
use crate::table::{distinct, lemma_slot, lookup, slot, Rows};

verus! {

/// The put at `lsn` is the newest of `key` at or below `upto`.
pub open spec fn is_newest(puts: Map<u64, PutModel>, key: Seq<char>, upto: u64, lsn: u64) -> bool {
    &&& puts.contains_key(lsn)
    &&& puts[lsn].key == key
    &&& lsn <= upto
    &&& forall|x: u64| #[trigger]
        puts.contains_key(x) && puts[x].key == key && x <= upto ==> x <= lsn
}

/// Where the value of the put at `lsn` is.
pub open spec fn location_of(puts: Map<u64, PutModel>, lsn: u64) -> Location {
    Location { seg: puts[lsn].seg, offset: puts[lsn].offset, len: puts[lsn].len, lsn }
}

/// Where the newest value of `key` at or below `upto` is.
pub open spec fn newest(puts: Map<u64, PutModel>, key: Seq<char>, upto: u64) -> Option<Location> {
    if exists|lsn: u64| is_newest(puts, key, upto, lsn) {
        Some(location_of(puts, choose|lsn: u64| is_newest(puts, key, upto, lsn)))
    } else {
        None
    }
}

pub proof fn lemma_newest_is(puts: Map<u64, PutModel>, key: Seq<char>, upto: u64, lsn: u64)
    requires
        is_newest(puts, key, upto, lsn),
    ensures
        newest(puts, key, upto) == Some(location_of(puts, lsn)),
{
    let other = choose|x: u64| is_newest(puts, key, upto, x);
    assert(puts.contains_key(lsn) && puts.contains_key(other));
}

/// What readers see of a key whose newest value is at `at`: that value if it
/// is committed, or else the newest one that is.
pub open spec fn shown_of(
    puts: Map<u64, PutModel>,
    key: Seq<char>,
    at: Location,
    committed: u64,
) -> Option<Location> {
    if at.lsn <= committed {
        Some(at)
    } else {
        newest(puts, key, committed)
    }
}

/// The index as readers see it.
pub open spec fn visible(
    index: Rows<Location>,
    puts: Map<u64, PutModel>,
    committed: u64,
) -> Rows<Location>
    decreases index.len(),
{
    if index.len() == 0 {
        Seq::empty()
    } else {
        let rest = visible(index.drop_last(), puts, committed);
        match shown_of(puts, index.last().0, index.last().1, committed) {
            Some(at) => rest.push((index.last().0, at)),
            None => rest,
        }
    }
}

/// The lengths that the aggregates count are those of the index.
pub open spec fn lengths_of(index: Rows<Location>) -> Rows<u64> {
    index.map_values(|r: (Seq<char>, Location)| (r.0, r.1.len as u64))
}

pub proof fn lemma_visible(
    index: Rows<Location>,
    puts: Map<u64, PutModel>,
    committed: u64,
    key: Seq<char>,
)
    requires
        distinct(index),
    ensures
        distinct(visible(index, puts, committed)),
        forall|i: int|
            0 <= i < visible(index, puts, committed).len() ==> (#[trigger] visible(
                index,
                puts,
                committed,
            )[i]).1.lsn <= committed,
        forall|i: int|
            0 <= i < visible(index, puts, committed).len() ==> slot(
                index,
                (#[trigger] visible(index, puts, committed)[i]).0,
            ) >= 0,
        lookup(visible(index, puts, committed), key) == (match lookup(index, key) {
            Some(at) => shown_of(puts, key, at, committed),
            None => None,
        }),
    decreases index.len(),
{
    let v = visible(index, puts, committed);
    if index.len() > 0 {
        let front = index.drop_last();
        let last = index.last();
        assert(distinct(front)) by {
            assert forall|i: int, j: int| 0 <= i < j < front.len() implies (#[trigger] front[i]).0
                != (#[trigger] front[j]).0 by {
                assert(index[i].0 != index[j].0);
            }
        }
        lemma_visible(front, puts, committed, key);
        let rest = visible(front, puts, committed);
        lemma_slot(front, last.0);
        if slot(front, last.0) >= 0 {
            let i = slot(front, last.0);
            assert(index[i].0 != index[index.len() - 1].0);
        }
        assert forall|i: int| 0 <= i < rest.len() implies (#[trigger] rest[i]).0 != last.0 by {
            assert(slot(front, rest[i].0) >= 0);
        }
        lemma_slot(rest, key);
        lemma_slot(front, key);
        if key != last.0 {
            assert(lookup(index, key) == lookup(front, key));
        }
        match shown_of(puts, last.0, last.1, committed) {
            Some(at) => {
                assert(v == rest.push((last.0, at)));
                assert(v.drop_last() =~= rest);
                if last.1.lsn > committed {
                    let lsn = choose|x: u64| is_newest(puts, last.0, committed, x);
                    assert(is_newest(puts, last.0, committed, lsn));
                }
            },
            None => {
                if last.0 == key {
                    assert(slot(rest, key) < 0) by {
                        if slot(rest, key) >= 0 {
                            assert(rest[slot(rest, key)].0 == key);
                        }
                    }
                }
            },
        }
        assert forall|i: int, j: int| 0 <= i < j < v.len() implies (#[trigger] v[i]).0 != (
        #[trigger] v[j]).0 by {
            if j < rest.len() {
                assert(rest[i].0 != rest[j].0);
            } else {
                assert(rest[i].0 != last.0);
            }
        }
        assert forall|i: int| 0 <= i < v.len() implies slot(index, (#[trigger] v[i]).0) >= 0 by {
            if i < rest.len() {
                assert(slot(front, rest[i].0) >= 0);
            }
        }
        assert forall|i: int| 0 <= i < v.len() implies (#[trigger] v[i]).1.lsn <= committed by {
            if i < rest.len() {
                assert(rest[i].1.lsn <= committed);
            }
        }
    }
}

/// Where everything is committed, readers see the whole index.
pub proof fn lemma_all_visible(index: Rows<Location>, puts: Map<u64, PutModel>, committed: u64)
    requires
        forall|i: int| 0 <= i < index.len() ==> (#[trigger] index[i]).1.lsn <= committed,
    ensures
        visible(index, puts, committed) == index,
    decreases index.len(),
{
    if index.len() > 0 {
        let front = index.drop_last();
        assert forall|i: int| 0 <= i < front.len() implies (#[trigger] front[i]).1.lsn
            <= committed by {
            assert(front[i] == index[i]);
        }
        lemma_all_visible(front, puts, committed);
        assert(index[index.len() - 1].1.lsn <= committed);
        assert(front.push(index.last()) =~= index);
    } else {
        assert(visible(index, puts, committed) =~= index);
    }
}

/// Everything that was put is committed.
pub open spec fn caught_up(l: Layout) -> bool {
    forall|i: int| 0 <= i < l.index.len() ==> (#[trigger] l.index[i]).1.lsn <= l.committed_lsn
}

/// The files of all that a snapshot shows are open.
pub open spec fn readable<F>(p: Published<F>) -> bool {
    forall|i: int| 0 <= i < p.index.len() ==> p.files.contains_key((#[trigger] p.index[i]).1.seg)
}

/// A snapshot that readers can be shown: whole, with nothing that is not
/// committed, with the aggregates of just what it shows, and with the files of
/// all that it shows.
pub open spec fn whole<F>(p: Published<F>) -> bool {
    &&& readable(p)
    &&& distinct(p.index)
    &&& forall|i: int| 0 <= i < p.index.len() ==> (#[trigger] p.index[i]).1.lsn <= p.committed
    &&& p.live == lengths_of(p.index)
}

/// No key of `q` is lost in `p`, or goes back to an older put; and one that is
/// still at the same put has a value of the same length.
pub open spec fn keeps_keys<F>(p: Published<F>, q: Published<F>) -> bool {
    forall|key: Seq<char>|
        #![trigger lookup(q.index, key)]
        #![trigger lookup(p.index, key)]
        lookup(q.index, key) is Some ==> lookup(p.index, key) is Some && at_least(
            lookup(q.index, key)->0,
            lookup(p.index, key)->0,
        )
}

/// `b` is the place of a newer put than `a`, or of the same.
pub open spec fn at_least(a: Location, b: Location) -> bool {
    a.lsn < b.lsn || (a.lsn == b.lsn && a.len == b.len)
}

/// `p` is a snapshot that may be shown after `q`: what is committed does not
/// become less, and no key is lost or goes back.
pub open spec fn follows<F>(p: Published<F>, q: Published<F>) -> bool {
    &&& whole(p)
    &&& q.committed <= p.committed
    &&& keeps_keys(p, q)
}

/// Snapshots follow themselves, and one another in turn.
pub proof fn lemma_follows<F>(p: Published<F>, q: Published<F>, r: Published<F>)
    ensures
        whole(p) ==> follows(p, p),
        follows(p, q) && follows(q, r) ==> follows(p, r),
{
    if follows(p, q) && follows(q, r) {
        assert forall|key: Seq<char>| (#[trigger] lookup(r.index, key)) is Some implies lookup(
            p.index,
            key,
        ) is Some && at_least(lookup(r.index, key)->0, lookup(p.index, key)->0) by {
            assert(lookup(q.index, key) is Some);
        }
    }
}

/// The totals of a snapshot fit in 64 bits.
pub open spec fn fits<F>(p: Published<F>) -> bool {
    byte_count(p.live, Seq::empty()) <= u64::MAX
}

/// What is shown after `shown` when `next` is published. What would take a key
/// back, cannot be read, or has totals beyond 64 bits, is not shown.
pub open spec fn shows<F>(next: Published<F>, shown: Published<F>) -> Published<F> {
    if fits(next) && follows(next, shown) {
        next
    } else {
        shown
    }
}

/// Readers are never shown less than before: whatever is published, what they are
/// shown afterwards follows what they were shown, and fits. What is published is
/// shown if it does both itself.
pub proof fn lemma_shown_never_goes_back<F>(next: Published<F>, shown: Published<F>)
    requires
        whole(shown),
        fits(shown),
    ensures
        follows(shows(next, shown), shown),
        whole(shows(next, shown)),
        fits(shows(next, shown)),
        fits(next) && follows(next, shown) ==> shows(next, shown) == next,
{
}

/// A key that was shown is shown in every snapshot that follows, at the same put
/// or at a later one. Nothing that is shown is uncommitted, and what is
/// committed does not become less.
pub proof fn lemma_shown_keys_stay<F>(p: Published<F>, q: Published<F>, key: Seq<char>, i: int)
    requires
        follows(p, q),
        0 <= i < p.index.len(),
    ensures
        p.committed >= q.committed,
        p.index[i].1.lsn <= p.committed,
        p.files.contains_key(p.index[i].1.seg),
        lookup(q.index, key) matches Some(a) ==> (lookup(p.index, key) matches Some(b) && (b.lsn
            > a.lsn || b.lsn == a.lsn && b.len == a.len)),
{
}

/// The snapshot of a store with nothing in it.
pub open spec fn blank<F>() -> Published<F> {
    Published {
        committed: 0,
        index: Seq::empty(),
        files: Map::empty(),
        puts: Map::empty(),
        live: Seq::empty(),
    }
}

pub proof fn lemma_blank<F>(p: Published<F>)
    ensures
        whole(blank::<F>()),
        fits(blank::<F>()),
        whole(p) ==> follows(p, blank()),
{
    assert(blank::<F>().live =~= lengths_of(blank::<F>().index));
}

pub proof fn lemma_byte_count_front(live: Rows<u64>, i: int)
    requires
        0 <= i < live.len(),
    ensures
        byte_count(live.take(i), Seq::empty()) + live[i].1 == byte_count(
            live.take(i + 1),
            Seq::empty(),
        ) <= byte_count(live, Seq::empty()),
    decreases live.len(),
{
    assert(live.take(i + 1).drop_last() =~= live.take(i));
    lemma_root_counts_all(live[i].0);
    if i < live.len() - 1 {
        lemma_byte_count_front(live.drop_last(), i);
        assert(live.drop_last().take(i + 1) =~= live.take(i + 1));
        assert(live.drop_last().take(i) =~= live.take(i));
    } else {
        assert(live.take(i + 1) =~= live);
    }
}

} // verus!
