//! Walking maps and sets of numbers in increasing order.

use std::collections::{BTreeMap, BTreeSet};

use vstd::prelude::*;
use vstd::std_specs::iter::IteratorSpec;

verus! {

/// In increasing order, without repetition.
pub open spec fn increasing(keys: Seq<u64>) -> bool {
    forall|i: int, j: int| 0 <= i < j < keys.len() ==> keys[i] < keys[j]
}

/// `keys` are those in `dom`, in increasing order.
pub open spec fn lists(keys: Seq<u64>, dom: Set<u64>) -> bool {
    &&& increasing(keys)
    &&& forall|k: u64| #[trigger] dom.contains(k) <==> keys.contains(k)
}

/// Puts `k` in its place among `keys`, unless it is there.
fn insert_key(keys: &mut Vec<u64>, k: u64)
    requires
        increasing(old(keys)@),
    ensures
        increasing(final(keys)@),
        forall|x: u64| #[trigger] final(keys)@.contains(x) <==> old(keys)@.contains(x) || x == k,
{
    let ghost before = keys@;
    let mut at: usize = keys.len();
    while at > 0 && keys[at - 1] >= k
        invariant
            keys@ == before,
            increasing(before),
            at <= keys@.len(),
            forall|i: int| at <= i < before.len() ==> before[i] >= k,
        decreases at,
    {
        at -= 1;
    }
    if at < keys.len() && keys[at] == k {
        assert(before[at as int] == k);
        return;
    }
    keys.insert(at, k);
    proof {
        let after = keys@;
        assert forall|x: u64| #[trigger] after.contains(x) <==> before.contains(x) || x == k by {
            if after.contains(x) {
                let i = choose|i: int| 0 <= i < after.len() && after[i] == x;
                if i < at {
                    assert(before[i] == x);
                } else if i > at {
                    assert(before[i - 1] == x);
                }
            }
            if before.contains(x) {
                let i = choose|i: int| 0 <= i < before.len() && before[i] == x;
                if i < at {
                    assert(after[i] == x);
                } else {
                    assert(after[i + 1] == x);
                }
            }
            if x == k {
                assert(after[at as int] == x);
            }
        }
    }
}

/// The keys of a map, in increasing order.
pub fn keys_of<V>(m: &BTreeMap<u64, V>) -> (keys: Vec<u64>)
    ensures
        lists(keys@, m@.dom()),
{
    let mut keys: Vec<u64> = Vec::new();
    for k in it: m.keys()
        invariant
            it.seq().unref().to_set() == m@.dom(),
            increasing(keys@),
            forall|x: u64|
                #[trigger] keys@.contains(x) <==> it.seq().unref().take(it.index()).contains(x),
    {
        let ghost all = it.seq().unref();
        let ghost done = all.take(it.index());
        let ghost more = all.take(it.index() + 1);
        proof {
            assert(more =~= done.push(*k));
        }
        insert_key(&mut keys, *k);
        proof {
            assert forall|x: u64| #[trigger] keys@.contains(x) <==> more.contains(x) by {
                if more.contains(x) {
                    let i = choose|i: int| 0 <= i < more.len() && more[i] == x;
                    if i < done.len() {
                        assert(done[i] == x);
                    }
                }
                if done.contains(x) {
                    let i = choose|i: int| 0 <= i < done.len() && done[i] == x;
                    assert(more[i] == x);
                }
                if x == *k {
                    assert(more[done.len() as int] == x);
                }
            }
        }
    }
    proof {
        let all = m.keys().remaining().unref();
        assert(all.take(all.len() as int) =~= all);
        assert forall|k: u64| #[trigger] m@.dom().contains(k) <==> keys@.contains(k) by {
            assert(all.to_set().contains(k) <==> all.contains(k));
        }
    }
    keys
}

/// The members of a set, in increasing order.
pub fn members_of(s: &BTreeSet<u64>) -> (keys: Vec<u64>)
    ensures
        lists(keys@, s@),
{
    let mut keys: Vec<u64> = Vec::new();
    for k in it: s.iter()
        invariant
            it.seq().unref().to_set() == s@,
            increasing(keys@),
            forall|x: u64|
                #[trigger] keys@.contains(x) <==> it.seq().unref().take(it.index()).contains(x),
    {
        let ghost all = it.seq().unref();
        let ghost done = all.take(it.index());
        let ghost more = all.take(it.index() + 1);
        proof {
            assert(more =~= done.push(*k));
        }
        insert_key(&mut keys, *k);
        proof {
            assert forall|x: u64| #[trigger] keys@.contains(x) <==> more.contains(x) by {
                if more.contains(x) {
                    let i = choose|i: int| 0 <= i < more.len() && more[i] == x;
                    if i < done.len() {
                        assert(done[i] == x);
                    }
                }
                if done.contains(x) {
                    let i = choose|i: int| 0 <= i < done.len() && done[i] == x;
                    assert(more[i] == x);
                }
                if x == *k {
                    assert(more[done.len() as int] == x);
                }
            }
        }
    }
    proof {
        let all = s.iter().remaining().unref();
        assert(all.take(all.len() as int) =~= all);
        assert forall|k: u64| #[trigger] s@.contains(k) <==> keys@.contains(k) by {
            assert(all.to_set().contains(k) <==> all.contains(k));
        }
    }
    keys
}

} // verus!
