//! Aggregates against listings: the totals that are kept for a prefix are
//! those of a recount of the objects that are listed under it.

use vstd::prelude::*;

use crate::error::ErrorModel;
use crate::layout::Location;
use crate::rollup::{
    counted, join, lemma_counted_is_under, lemma_prefixes_distinct, lemma_recount_put, prefixes,
    recount, segments, under,
};
use crate::segment::read::lists_under;
use crate::sorting::{lemma_not_before_itself, Listed};
use crate::state::{put_deltas, Place, Published};
use crate::table::{distinct, lemma_slot, lemma_slot_is, lookup, put, slot, Rows};
use crate::visible::{lengths_of, whole};

verus! {

/// The lengths of all of `rows` together.
pub open spec fn listed_len(rows: Seq<Listed>) -> nat
    decreases rows.len(),
{
    if rows.len() == 0 {
        0
    } else {
        listed_len(rows.drop_last()) + rows.last().1 as nat
    }
}

/// The keys of the index under `prefix`, with the lengths of their values.
spec fn found_under(index: Rows<Location>, prefix: Seq<char>) -> Seq<Listed>
    decreases index.len(),
{
    if index.len() == 0 {
        Seq::empty()
    } else {
        let rest = found_under(index.drop_last(), prefix);
        if under(index.last().0, prefix) {
            rest.push((index.last().0, index.last().1.len))
        } else {
            rest
        }
    }
}

proof fn lemma_found_under(index: Rows<Location>, prefix: Seq<char>)
    requires
        distinct(index),
        forall|i: int| 0 <= i < index.len() ==> segments((#[trigger] index[i]).0).len() > 0,
        prefix == join(segments(prefix)),
    ensures
        recount(lengths_of(index), prefix) == (
            found_under(index, prefix).len(),
            listed_len(found_under(index, prefix)),
        ),
        forall|l: Listed| #[trigger]
            found_under(index, prefix).contains(l) <==> under(l.0, prefix) && exists|i: int|
                0 <= i < index.len() && (#[trigger] index[i]).0 == l.0 && index[i].1.len == l.1,
        found_under(index, prefix).no_duplicates(),
    decreases index.len(),
{
    if index.len() == 0 {
        assert(lengths_of(index) =~= Seq::empty());
    } else {
        let front = index.drop_last();
        let last = index.last();
        assert(index[index.len() - 1] == last);
        assert forall|i: int| 0 <= i < front.len() implies segments((#[trigger] front[i]).0).len()
            > 0 by {
            assert(front[i] == index[i]);
        }
        assert(distinct(front)) by {
            assert forall|i: int, j: int| 0 <= i < j < front.len() implies (#[trigger] front[i]).0
                != (#[trigger] front[j]).0 by {
                assert(index[i].0 != index[j].0);
            }
        }
        lemma_found_under(front, prefix);
        lemma_counted_is_under(last.0, prefix);
        assert(lengths_of(index).drop_last() =~= lengths_of(front));
        let rest = found_under(front, prefix);
        let all = found_under(index, prefix);
        let it = (last.0, last.1.len);
        if under(last.0, prefix) {
            assert(all.drop_last() =~= rest);
            if rest.contains(it) {
                let i = choose|i: int|
                    0 <= i < front.len() && (#[trigger] front[i]).0 == it.0 && front[i].1.len
                        == it.1;
                assert(index[i].0 != index[index.len() - 1].0);
            }
            assert(all.no_duplicates());
        }
        assert forall|l: Listed| #[trigger] all.contains(l) <==> under(l.0, prefix) && exists|i: int|
            0 <= i < index.len() && (#[trigger] index[i]).0 == l.0 && index[i].1.len == l.1 by {
            if all.contains(l) {
                let k = choose|k: int| 0 <= k < all.len() && all[k] == l;
                if k < rest.len() {
                    assert(rest[k] == l);
                    assert(rest.contains(l));
                    let i = choose|i: int|
                        0 <= i < front.len() && (#[trigger] front[i]).0 == l.0 && front[i].1.len
                            == l.1;
                    assert(index[i].0 == l.0);
                } else {
                    assert(index[index.len() - 1].0 == l.0);
                }
            }
            if under(l.0, prefix) && exists|i: int|
                0 <= i < index.len() && (#[trigger] index[i]).0 == l.0 && index[i].1.len == l.1 {
                let i = choose|i: int|
                    0 <= i < index.len() && (#[trigger] index[i]).0 == l.0 && index[i].1.len == l.1;
                if i < front.len() {
                    assert(front[i].0 == l.0);
                    assert(rest.contains(l));
                    let k = choose|k: int| 0 <= k < rest.len() && rest[k] == l;
                    assert(all[k] == l);
                } else {
                    assert(all[rest.len() as int] == l);
                }
            }
        }
    }
}

proof fn lemma_remove_len(rows: Seq<Listed>, i: int)
    requires
        0 <= i < rows.len(),
    ensures
        listed_len(rows.remove(i)) + rows[i].1 == listed_len(rows),
    decreases rows.len(),
{
    if i == rows.len() - 1 {
        assert(rows.remove(i) =~= rows.drop_last());
    } else {
        lemma_remove_len(rows.drop_last(), i);
        assert(rows.remove(i).drop_last() =~= rows.drop_last().remove(i));
        assert(rows.remove(i).last() == rows.last());
    }
}

/// Rows without duplicates that hold the same have the same length and the
/// same sum.
proof fn lemma_same_rows(a: Seq<Listed>, b: Seq<Listed>)
    requires
        a.no_duplicates(),
        b.no_duplicates(),
        forall|l: Listed| #[trigger] a.contains(l) <==> b.contains(l),
    ensures
        a.len() == b.len(),
        listed_len(a) == listed_len(b),
    decreases a.len(),
{
    if a.len() == 0 {
        if b.len() > 0 {
            assert(b.contains(b[0]));
            assert(a.contains(b[0]));
        }
    } else {
        let it = a.last();
        assert(a[a.len() - 1] == it);
        assert(a.contains(it));
        let i = choose|i: int| 0 <= i < b.len() && b[i] == it;
        let a2 = a.drop_last();
        let b2 = b.remove(i);
        assert(b2.no_duplicates()) by {
            assert forall|x: int, y: int| 0 <= x < b2.len() && 0 <= y < b2.len() && x
                != y implies b2[x] != b2[y] by {
                let x2 = if x < i { x } else { x + 1 };
                let y2 = if y < i { y } else { y + 1 };
                assert(b2[x] == b[x2] && b2[y] == b[y2]);
            }
        }
        assert forall|l: Listed| #[trigger] a2.contains(l) <==> b2.contains(l) by {
            if a2.contains(l) {
                let k = choose|k: int| 0 <= k < a2.len() && a2[k] == l;
                assert(a[k] == l);
                assert(a.contains(l));
                let j = choose|j: int| 0 <= j < b.len() && b[j] == l;
                assert(j != i);
                if j < i {
                    assert(b2[j] == l);
                } else {
                    assert(b2[j - 1] == l);
                }
            }
            if b2.contains(l) {
                let k = choose|k: int| 0 <= k < b2.len() && b2[k] == l;
                let j = if k < i { k } else { k + 1 };
                assert(b[j] == l);
                assert(b.contains(l));
                assert(a.contains(l));
                let t = choose|t: int| 0 <= t < a.len() && a[t] == l;
                assert(b[j] != b[i]);
                assert(a2[t] == l);
            }
        }
        lemma_same_rows(a2, b2);
        lemma_remove_len(b, i);
    }
}

/// Aggregate exactness: the totals of a prefix equal a recount of the objects
/// listed under it, for keys with at least one part and a prefix written with
/// single slashes between parts.
pub proof fn lemma_totals_match_listing<F>(p: Published<F>, prefix: Seq<char>, rows: Seq<Listed>)
    requires
        whole(p),
        forall|i: int|
            0 <= i < p.index.len() ==> segments((#[trigger] p.index[i]).0).len() > 0,
        prefix == join(segments(prefix)),
        lists_under(p, prefix, rows),
    ensures
        recount(p.live, prefix) == (rows.len(), listed_len(rows)),
{
    let found = found_under(p.index, prefix);
    lemma_found_under(p.index, prefix);
    assert(rows.no_duplicates()) by {
        assert forall|i: int, j: int| 0 <= i < rows.len() && 0 <= j < rows.len() && i
            != j implies rows[i] != rows[j] by {
            lemma_not_before_itself(rows[i].0);
            if i < j {
                assert(crate::sorting::text_before(rows[i].0, rows[j].0));
            } else {
                assert(crate::sorting::text_before(rows[j].0, rows[i].0));
            }
        }
    }
    assert forall|l: Listed| #[trigger] found.contains(l) <==> rows.contains(l) by {
        if found.contains(l) {
            let i = choose|i: int|
                0 <= i < p.index.len() && (#[trigger] p.index[i]).0 == l.0 && p.index[i].1.len
                    == l.1;
            lemma_slot_is(p.index, i);
            assert(p.lists(l));
        }
        if rows.contains(l) {
            lemma_slot(p.index, l.0);
            let i = slot(p.index, l.0);
            assert(p.index[i].0 == l.0 && p.index[i].1.len == l.1);
        }
    }
    lemma_same_rows(found, rows);
}

/// The deltas that are logged with the put of a new key are by how much each
/// total grows: no prefix has two of them, and a total without one stays.
pub proof fn lemma_deltas_are_the_growth(
    live: Rows<u64>,
    key: Seq<char>,
    len: u32,
    i: int,
    prefix: Seq<char>,
)
    requires
        distinct(live),
        lookup(live, key) is None,
    ensures
        ({
            let deltas = put_deltas(key, len as u64);
            let (before, after) = (live, put(live, key, len as u64));
            &&& forall|j: int|
                0 <= i < j < deltas.len() ==> deltas[i].prefix != (#[trigger] deltas[j]).prefix
            &&& 0 <= i < deltas.len() ==> {
                let d = deltas[i];
                &&& recount(after, d.prefix).0 == recount(before, d.prefix).0 + d.object_count_delta
                &&& recount(after, d.prefix).1 == recount(before, d.prefix).1 + d.byte_count_delta
            }
            &&& (forall|j: int| 0 <= j < deltas.len() ==> (#[trigger] deltas[j]).prefix != prefix)
                ==> recount(after, prefix) == recount(before, prefix)
        }),
{
    let deltas = put_deltas(key, len as u64);
    assert forall|j: int| 0 <= i < j < deltas.len() implies deltas[i].prefix != (
    #[trigger] deltas[j]).prefix by {
        lemma_prefixes_distinct(key, i, j);
    }
    if 0 <= i < deltas.len() {
        assert(prefixes(key)[i] == deltas[i].prefix);
        assert(counted(key, deltas[i].prefix));
        lemma_recount_put(live, key, len as u64, deltas[i].prefix);
    }
    lemma_recount_put(live, key, len as u64, prefix);
    if counted(key, prefix) {
        let j = choose|j: int| 0 <= j < prefixes(key).len() && prefixes(key)[j] == prefix;
        assert(deltas[j].prefix == prefix);
    }
}

/// What is listed is what can be read: a key with its length is listed, under
/// the root or a prefix of it, exactly when a read of the key finds a value of
/// that length. Reading up to the last commit finds the same.
pub proof fn lemma_listed_is_readable<F>(p: Published<F>, key: Seq<char>, len: u32)
    requires
        whole(p),
    ensures
        p.read(key) is Ok,
        p.read_upto(key, p.committed) == p.read(key),
        p.lists((key, len)) <==> (match p.read(key) {
            Ok(Some((_, _, n))) => n == len,
            _ => false,
        }),
{
    lemma_slot(p.index, key);
    let i = slot(p.index, key);
    if i >= 0 {
        assert(p.files.contains_key(p.index[i].1.seg));
        assert(p.index[i].1.lsn <= p.committed);
    }
}

/// A read up to `upto` finds the newest value that is shown, where it is, if
/// that was put at or below `upto`, and nothing if it was put later.
pub proof fn lemma_read_goes_up_to<F>(p: Published<F>, i: int, upto: u64)
    requires
        whole(p),
        0 <= i < p.index.len(),
    ensures
        ({
            let (key, at) = p.index[i];
            &&& at.lsn <= upto ==> p.read_upto(key, upto) == Ok::<Option<Place<F>>, ErrorModel>(
                Some((p.files[at.seg], at.offset, at.len)),
            )
            &&& at.lsn > upto ==> p.read_upto(key, upto) == Ok::<Option<Place<F>>, ErrorModel>(None)
        }),
{
    lemma_slot_is(p.index, i);
    assert(p.files.contains_key(p.index[i].1.seg));
}

/// The value of a put is read by its LSN, wherever it is, as long as the put is
/// known and its segment is open. Otherwise the read fails.
pub proof fn lemma_put_is_read_by_lsn<F>(p: Published<F>, lsn: u64)
    ensures
        p.puts.contains_key(lsn) && p.files.contains_key(p.puts[lsn].seg) ==> p.read_put(lsn)
            == Ok::<Place<F>, ErrorModel>(
            (p.files[p.puts[lsn].seg], p.puts[lsn].offset, p.puts[lsn].len),
        ),
        !p.puts.contains_key(lsn) || !p.files.contains_key(p.puts[lsn].seg) ==> p.read_put(lsn)
            is Err,
{
}

} // verus!
