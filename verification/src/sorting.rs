//! Sorting rows by key.

use vstd::prelude::*;
use vstd::string::*;
use vstd::utf8::{encode_utf8, encode_utf8_decode_utf8};

verus! {

/// `a` comes before `b` in byte order.
pub open spec fn bytes_before(a: Seq<u8>, b: Seq<u8>) -> bool
    decreases a.len(),
{
    if b.len() == 0 {
        false
    } else if a.len() == 0 {
        true
    } else if a[0] != b[0] {
        a[0] < b[0]
    } else {
        bytes_before(a.skip(1), b.skip(1))
    }
}

/// `a` comes before `b` in the order of strings, which is that of their bytes.
pub open spec fn text_before(a: Seq<char>, b: Seq<char>) -> bool {
    bytes_before(encode_utf8(a), encode_utf8(b))
}

proof fn lemma_bytes_trans(a: Seq<u8>, b: Seq<u8>, c: Seq<u8>)
    requires
        bytes_before(a, b),
        bytes_before(b, c),
    ensures
        bytes_before(a, c),
    decreases a.len(),
{
    if a.len() > 0 && b.len() > 0 && c.len() > 0 && a[0] == b[0] && b[0] == c[0] {
        lemma_bytes_trans(a.skip(1), b.skip(1), c.skip(1));
    }
}

proof fn lemma_bytes_total(a: Seq<u8>, b: Seq<u8>)
    requires
        a != b,
    ensures
        bytes_before(a, b) || bytes_before(b, a),
    decreases a.len(),
{
    if a.len() == 0 {
        if b.len() == 0 {
            assert(a =~= b);
        }
    } else if b.len() > 0 && a[0] == b[0] {
        if a.skip(1) == b.skip(1) {
            assert(a =~= seq![a[0]] + a.skip(1));
            assert(b =~= seq![b[0]] + b.skip(1));
        }
        lemma_bytes_total(a.skip(1), b.skip(1));
    }
}

/// The order of strings is transitive, and of two different strings one comes
/// before the other.
pub proof fn lemma_text_order(a: Seq<char>, b: Seq<char>, c: Seq<char>)
    ensures
        text_before(a, b) && text_before(b, c) ==> text_before(a, c),
        a != b ==> text_before(a, b) || text_before(b, a),
{
    if text_before(a, b) && text_before(b, c) {
        lemma_bytes_trans(encode_utf8(a), encode_utf8(b), encode_utf8(c));
    }
    if a != b {
        encode_utf8_decode_utf8(a);
        encode_utf8_decode_utf8(b);
        lemma_bytes_total(encode_utf8(a), encode_utf8(b));
    }
}

/// Where two strings of bytes differ first, the smaller byte comes first; one
/// that the other starts with comes before it.
pub proof fn lemma_first_difference_decides(
    front: Seq<u8>,
    x: u8,
    a: Seq<u8>,
    y: u8,
    b: Seq<u8>,
)
    ensures
        x != y ==> (bytes_before(front + seq![x] + a, front + seq![y] + b) <==> x < y),
        bytes_before(front, front + seq![x] + a),
        !bytes_before(front + seq![x] + a, front),
    decreases front.len(),
{
    let (p, q) = (front + seq![x] + a, front + seq![y] + b);
    if front.len() > 0 {
        let rest = front.skip(1);
        lemma_first_difference_decides(rest, x, a, y, b);
        assert(p.skip(1) =~= rest + seq![x] + a);
        assert(q.skip(1) =~= rest + seq![y] + b);
        assert(p[0] == front[0]);
        assert(q[0] == front[0]);
    }
}

proof fn lemma_bytes_irreflexive(a: Seq<u8>)
    ensures
        !bytes_before(a, a),
    decreases a.len(),
{
    if a.len() > 0 {
        lemma_bytes_irreflexive(a.skip(1));
    }
}

/// No string comes before itself.
pub proof fn lemma_not_before_itself(a: Seq<char>)
    ensures
        !text_before(a, a),
{
    lemma_bytes_irreflexive(encode_utf8(a));
}

fn comes_before(a: &str, b: &str) -> (r: bool)
    ensures
        r == text_before(a@, b@),
{
    let x = a.as_bytes();
    let y = b.as_bytes();
    let mut i: usize = 0;
    assert(x@.skip(0) =~= x@);
    assert(y@.skip(0) =~= y@);
    while i < x.len() && i < y.len() && x[i] == y[i]
        invariant
            i <= x@.len(),
            i <= y@.len(),
            bytes_before(x@, y@) == bytes_before(x@.skip(i as int), y@.skip(i as int)),
        decreases x@.len() - i,
    {
        assert(x@.skip(i as int).skip(1) =~= x@.skip(i + 1));
        assert(y@.skip(i as int).skip(1) =~= y@.skip(i + 1));
        i += 1;
    }
    if i >= y.len() {
        false
    } else if i >= x.len() {
        true
    } else {
        x[i] < y[i]
    }
}

/// A key with the length of its value.
pub type Listed = (Seq<char>, u32);

pub open spec fn listed_models(rows: Seq<(String, u32)>) -> Seq<Listed> {
    rows.map_values(|r: (String, u32)| (r.0@, r.1))
}

/// In the order of the keys, which all differ.
pub open spec fn sorted(rows: Seq<Listed>) -> bool {
    forall|i: int, j: int|
        0 <= i < j < rows.len() ==> text_before((#[trigger] rows[i]).0, (#[trigger] rows[j]).0)
}

/// No key occurs twice.
pub open spec fn keys_differ(rows: Seq<Listed>) -> bool {
    forall|i: int, j: int| 0 <= i < j < rows.len() ==> (#[trigger] rows[i]).0 != (#[trigger] rows[j]).0
}

/// The rows at `at`.
spec fn picked(rows: Seq<Listed>, at: Seq<usize>) -> Seq<Listed> {
    at.map_values(|p: usize| rows[p as int])
}

spec fn positions_in(rows: Seq<Listed>, at: Seq<usize>) -> bool {
    forall|i: int| 0 <= i < at.len() ==> (#[trigger] at[i]) < rows.len()
}

/// Merges two sorted lists of positions.
fn merge(rows: &Vec<(String, u32)>, a: &Vec<usize>, b: &Vec<usize>) -> (out: Vec<usize>)
    requires
        positions_in(listed_models(rows@), a@),
        positions_in(listed_models(rows@), b@),
        sorted(picked(listed_models(rows@), a@)),
        sorted(picked(listed_models(rows@), b@)),
        forall|i: int, j: int|
            0 <= i < a@.len() && 0 <= j < b@.len() ==> listed_models(rows@)[#[trigger] a@[i] as int].0
                != listed_models(rows@)[#[trigger] b@[j] as int].0,
    ensures
        positions_in(listed_models(rows@), out@),
        sorted(picked(listed_models(rows@), out@)),
        forall|p: usize| #[trigger] out@.contains(p) <==> a@.contains(p) || b@.contains(p),
{
    let ghost rs = listed_models(rows@);
    let mut out: Vec<usize> = Vec::new();
    let mut i: usize = 0;
    let mut j: usize = 0;
    while i < a.len() || j < b.len()
        invariant
            rs == listed_models(rows@),
            i <= a@.len(),
            j <= b@.len(),
            positions_in(rs, a@),
            positions_in(rs, b@),
            sorted(picked(rs, a@)),
            sorted(picked(rs, b@)),
            forall|x: int, y: int|
                0 <= x < a@.len() && 0 <= y < b@.len() ==> rs[#[trigger] a@[x] as int].0
                    != rs[#[trigger] b@[y] as int].0,
            out@.len() == i + j,
            positions_in(rs, out@),
            sorted(picked(rs, out@)),
            forall|x: int, y: int|
                0 <= x < out@.len() && i <= y < a@.len() ==> text_before(
                    rs[#[trigger] out@[x] as int].0,
                    rs[#[trigger] a@[y] as int].0,
                ),
            forall|x: int, y: int|
                0 <= x < out@.len() && j <= y < b@.len() ==> text_before(
                    rs[#[trigger] out@[x] as int].0,
                    rs[#[trigger] b@[y] as int].0,
                ),
            forall|x: int| 0 <= x < i ==> out@.contains(#[trigger] a@[x]),
            forall|y: int| 0 <= y < j ==> out@.contains(#[trigger] b@[y]),
            forall|x: int|
                0 <= x < out@.len() ==> a@.contains(#[trigger] out@[x]) || b@.contains(out@[x]),
        decreases a@.len() - i + b@.len() - j,
    {
        let ghost before = out@;
        let from_a: bool = if i >= a.len() {
            false
        } else if j >= b.len() {
            true
        } else {
            assert(a@[i as int] < rs.len() && b@[j as int] < rs.len());
            assert(rs[a@[i as int] as int].0 == rows@[a@[i as int] as int].0@);
            assert(rs[b@[j as int] as int].0 == rows@[b@[j as int] as int].0@);
            comes_before(rows[a[i]].0.as_str(), rows[b[j]].0.as_str())
        };
        let next: usize = if from_a {
            a[i]
        } else {
            b[j]
        };
        let ghost key = rs[next as int].0;
        proof {
            if i < a@.len() && j < b@.len() {
                lemma_text_order(rs[a@[i as int] as int].0, rs[b@[j as int] as int].0, key);
            }
            // `next` comes before everything that is left.
            assert forall|y: int| i < y < a@.len() implies text_before(
                key,
                rs[#[trigger] a@[y] as int].0,
            ) by {
                assert(text_before(picked(rs, a@)[i as int].0, picked(rs, a@)[y].0));
                if !from_a {
                    lemma_text_order(
                        key,
                        rs[a@[i as int] as int].0,
                        rs[a@[y] as int].0,
                    );
                }
            }
            assert forall|y: int| j < y < b@.len() implies text_before(
                key,
                rs[#[trigger] b@[y] as int].0,
            ) by {
                assert(text_before(picked(rs, b@)[j as int].0, picked(rs, b@)[y].0));
                if from_a {
                    lemma_text_order(
                        key,
                        rs[b@[j as int] as int].0,
                        rs[b@[y] as int].0,
                    );
                }
            }
        }
        out.push(next);
        proof {
            assert(picked(rs, out@) =~= picked(rs, before).push(rs[next as int]));
            assert forall|x: usize| #[trigger] before.contains(x) implies out@.contains(x) by {
                let k = choose|k: int| 0 <= k < before.len() && before[k] == x;
                assert(out@[k] == x);
            }
            assert(out@[before.len() as int] == next);
            assert forall|x: int, y: int| 0 <= x < y < out@.len() implies text_before(
                (#[trigger] picked(rs, out@)[x]).0,
                (#[trigger] picked(rs, out@)[y]).0,
            ) by {
                if y == before.len() {
                    assert(out@[x] == before[x]);
                    if from_a {
                        assert(text_before(rs[before[x] as int].0, rs[a@[i as int] as int].0));
                    } else {
                        assert(text_before(rs[before[x] as int].0, rs[b@[j as int] as int].0));
                    }
                } else {
                    assert(text_before(picked(rs, before)[x].0, picked(rs, before)[y].0));
                }
            }
            if from_a {
                assert(a@.contains(next));
            } else {
                assert(b@.contains(next));
            }
        }
        if from_a {
            i += 1;
        } else {
            j += 1;
        }
        proof {
            assert forall|x: int| 0 <= x < out@.len() implies a@.contains(#[trigger] out@[x])
                || b@.contains(out@[x]) by {
                if x < before.len() {
                    assert(out@[x] == before[x]);
                }
            }
            assert forall|x: int, y: int| 0 <= x < out@.len() && i <= y < a@.len() implies text_before(
                rs[#[trigger] out@[x] as int].0,
                rs[#[trigger] a@[y] as int].0,
            ) by {
                if x < before.len() {
                    assert(out@[x] == before[x]);
                }
            }
            assert forall|x: int, y: int| 0 <= x < out@.len() && j <= y < b@.len() implies text_before(
                rs[#[trigger] out@[x] as int].0,
                rs[#[trigger] b@[y] as int].0,
            ) by {
                if x < before.len() {
                    assert(out@[x] == before[x]);
                }
            }
        }
    }
    proof {
        assert forall|p: usize| #[trigger] out@.contains(p) <==> a@.contains(p) || b@.contains(p) by {
            if out@.contains(p) {
                let k = choose|k: int| 0 <= k < out@.len() && out@[k] == p;
                assert(a@.contains(out@[k]) || b@.contains(out@[k]));
            }
            if a@.contains(p) {
                let k = choose|k: int| 0 <= k < a@.len() && a@[k] == p;
                assert(out@.contains(a@[k]));
            }
            if b@.contains(p) {
                let k = choose|k: int| 0 <= k < b@.len() && b@[k] == p;
                assert(out@.contains(b@[k]));
            }
        }
    }
    out
}

/// The positions from `lo` to `hi`, in the order of the keys there.
fn sorted_positions(rows: &Vec<(String, u32)>, lo: usize, hi: usize) -> (out: Vec<usize>)
    requires
        lo <= hi <= rows@.len(),
        keys_differ(listed_models(rows@)),
    ensures
        positions_in(listed_models(rows@), out@),
        sorted(picked(listed_models(rows@), out@)),
        forall|p: usize| #[trigger] out@.contains(p) <==> lo <= p < hi,
    decreases hi - lo,
{
    let ghost rs = listed_models(rows@);
    if hi - lo == 0 {
        return Vec::new();
    }
    if hi - lo == 1 {
        let mut out: Vec<usize> = Vec::new();
        out.push(lo);
        assert(out@[0] == lo);
        return out;
    }
    let mid: usize = lo + (hi - lo) / 2;
    let a = sorted_positions(rows, lo, mid);
    let b = sorted_positions(rows, mid, hi);
    proof {
        assert forall|i: int, j: int| 0 <= i < a@.len() && 0 <= j < b@.len() implies rs[
            #[trigger] a@[i] as int
        ].0 != rs[#[trigger] b@[j] as int].0 by {
            assert(a@.contains(a@[i]) && b@.contains(b@[j]));
            assert(rs[a@[i] as int].0 != rs[b@[j] as int].0);
        }
    }
    merge(rows, &a, &b)
}

/// The rows in the order of their keys.
pub fn sort_rows(rows: &Vec<(String, u32)>) -> (out: Vec<(String, u32)>)
    requires
        keys_differ(listed_models(rows@)),
    ensures
        sorted(listed_models(out@)),
        forall|l: Listed|
            #[trigger] listed_models(out@).contains(l) <==> listed_models(rows@).contains(l),
{
    let ghost rs = listed_models(rows@);
    let order = sorted_positions(rows, 0, rows.len());
    let mut out: Vec<(String, u32)> = Vec::new();
    for i in 0..order.len()
        invariant
            rs == listed_models(rows@),
            positions_in(rs, order@),
            listed_models(out@) == picked(rs, order@).take(i as int),
    {
        assert(order@[i as int] < rs.len());
        let r = &rows[order[i]];
        let copy = (r.0.clone(), r.1);
        proof {
            assert(rs[order@[i as int] as int] == (r.0@, r.1));
            assert(listed_models(out@.push(copy)) =~= listed_models(out@).push((r.0@, r.1)));
            assert(picked(rs, order@).take(i + 1) =~= picked(rs, order@).take(i as int).push(
                picked(rs, order@)[i as int],
            ));
        }
        out.push(copy);
    }
    proof {
        let all = picked(rs, order@);
        assert(all.take(all.len() as int) =~= all);
        assert forall|l: Listed| #[trigger] all.contains(l) <==> rs.contains(l) by {
            if all.contains(l) {
                let i = choose|i: int| 0 <= i < all.len() && all[i] == l;
                assert(order@[i] < rs.len());
                assert(rs[order@[i] as int] == l);
            }
            if rs.contains(l) {
                let p = choose|p: int| 0 <= p < rs.len() && rs[p] == l;
                assert(order@.contains(p as usize));
                let i = choose|i: int| 0 <= i < order@.len() && order@[i] == p as usize;
                assert(all[i] == l);
            }
        }
    }
    out
}

} // verus!
