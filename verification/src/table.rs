//! A map from strings that remembers the order in which keys came first.

use vstd::hash_map::StringHashMap;
use vstd::prelude::*;
use vstd::string::*;

verus! {

/// Keys with their values, in the order in which the keys came first.
pub type Rows<V> = Seq<(Seq<char>, V)>;

/// The position of `key`, or -1.
pub open spec fn slot<V>(rows: Rows<V>, key: Seq<char>) -> int
    decreases rows.len(),
{
    if rows.len() == 0 {
        -1
    } else if rows.last().0 == key {
        rows.len() - 1
    } else {
        slot(rows.drop_last(), key)
    }
}

/// The value under `key`.
pub open spec fn lookup<V>(rows: Rows<V>, key: Seq<char>) -> Option<V> {
    let i = slot(rows, key);
    if i >= 0 {
        Some(rows[i].1)
    } else {
        None
    }
}

/// The rows with `value` under `key`.
pub open spec fn put<V>(rows: Rows<V>, key: Seq<char>, value: V) -> Rows<V> {
    let i = slot(rows, key);
    if i >= 0 {
        rows.update(i, (key, value))
    } else {
        rows.push((key, value))
    }
}

/// No key occurs twice.
pub open spec fn distinct<V>(rows: Rows<V>) -> bool {
    forall|i: int, j: int| 0 <= i < j < rows.len() ==> (#[trigger] rows[i]).0 != (#[trigger] rows[j]).0
}

/// `key` is at `slot`, if anywhere.
pub proof fn lemma_slot<V>(rows: Rows<V>, key: Seq<char>)
    ensures
        -1 <= slot(rows, key) < rows.len(),
        slot(rows, key) >= 0 ==> rows[slot(rows, key)].0 == key,
        slot(rows, key) < 0 ==> forall|i: int| 0 <= i < rows.len() ==> (#[trigger] rows[i]).0 != key,
    decreases rows.len(),
{
    if rows.len() > 0 && rows.last().0 != key {
        lemma_slot(rows.drop_last(), key);
        if slot(rows, key) < 0 {
            assert forall|i: int| 0 <= i < rows.len() implies (#[trigger] rows[i]).0 != key by {
                if i < rows.len() - 1 {
                    assert(rows.drop_last()[i] == rows[i]);
                }
            }
        }
    }
}

/// The key in a row is found there.
pub proof fn lemma_slot_is<V>(rows: Rows<V>, i: int)
    requires
        distinct(rows),
        0 <= i < rows.len(),
    ensures
        slot(rows, rows[i].0) == i,
        lookup(rows, rows[i].0) == Some(rows[i].1),
{
    lemma_slot(rows, rows[i].0);
    let j = slot(rows, rows[i].0);
    if j < 0 {
        assert(rows[i].0 != rows[i].0);
    } else if j < i {
        assert(rows[j].0 != rows[i].0);
    } else if i < j {
        assert(rows[i].0 != rows[j].0);
    }
}

/// A put is read back, leaves every other key alone, and keeps keys distinct.
pub proof fn lemma_put<V>(rows: Rows<V>, key: Seq<char>, value: V, other: Seq<char>)
    requires
        distinct(rows),
    ensures
        distinct(put(rows, key, value)),
        lookup(put(rows, key, value), other) == (if other == key {
            Some(value)
        } else {
            lookup(rows, other)
        }),
        slot(put(rows, key, value), other) == (if slot(rows, other) >= 0 {
            slot(rows, other)
        } else if other == key {
            rows.len() as int
        } else {
            -1
        }),
{
    let after = put(rows, key, value);
    lemma_slot(rows, key);
    lemma_slot(rows, other);
    lemma_slot(after, other);
    let k = slot(rows, key);
    assert forall|i: int, j: int| 0 <= i < j < after.len() implies (#[trigger] after[i]).0 != (
    #[trigger] after[j]).0 by {
        if j < rows.len() {
            assert(rows[i].0 != rows[j].0);
        } else {
            assert(rows[i].0 != key);
        }
    }
    if slot(rows, other) >= 0 {
        assert(after[slot(rows, other)].0 == other);
        lemma_slot_is(after, slot(rows, other));
    } else if other == key {
        lemma_slot_is(after, rows.len() as int);
    } else if slot(after, other) >= 0 {
        assert(after[slot(after, other)].0 == other);
        assert(rows[slot(after, other)].0 != other);
    }
}

/// A map from strings.
pub struct Table<V> {
    rows: Vec<(String, V)>,
    slots: StringHashMap<usize>,
}

impl<V> View for Table<V> {
    type V = Rows<V>;

    closed spec fn view(&self) -> Rows<V> {
        self.rows@.map_values(|r: (String, V)| (r.0@, r.1))
    }
}

impl<V: Copy> Table<V> {
    pub closed spec fn wf(&self) -> bool {
        &&& forall|key: Seq<char>| #[trigger] self.slots@.contains_key(key) <==> slot(self@, key) >= 0
        &&& forall|key: Seq<char>|
            #[trigger] self.slots@.contains_key(key) ==> self.slots@[key] == slot(self@, key)
        &&& distinct(self@)
    }

    pub proof fn lemma_distinct(&self)
        requires
            self.wf(),
        ensures
            distinct(self@),
    {
    }

    pub fn new() -> (t: Table<V>)
        ensures
            t.wf(),
            t@ == Seq::<(Seq<char>, V)>::empty(),
    {
        Table { rows: Vec::new(), slots: StringHashMap::new() }
    }

    pub fn len(&self) -> (n: usize)
        ensures
            n == self@.len(),
    {
        self.rows.len()
    }

    pub fn get(&self, key: &str) -> (v: Option<V>)
        requires
            self.wf(),
        ensures
            v == lookup(self@, key@),
    {
        proof {
            lemma_slot(self@, key@);
        }
        match self.slots.get(key) {
            Some(i) => {
                assert(self.slots@.contains_key(key@));
                assert(self@[*i as int] == (self.rows@[*i as int].0@, self.rows@[*i as int].1));
                Some(self.rows[*i].1)
            },
            None => {
                assert(!self.slots@.contains_key(key@));
                None
            },
        }
    }

    pub fn insert(&mut self, key: &str, value: V)
        requires
            old(self).wf(),
        ensures
            final(self).wf(),
            final(self)@ == put(old(self)@, key@, value),
    {
        let ghost before = self@;
        proof {
            lemma_slot(before, key@);
            assert forall|other: Seq<char>| true implies #[trigger] slot(put(before, key@, value), other)
                == (if slot(before, other) >= 0 {
                slot(before, other)
            } else if other == key@ {
                before.len() as int
            } else {
                -1
            }) by {
                lemma_put(before, key@, value, other);
            }
            lemma_put(before, key@, value, key@);
        }
        let at: Option<usize> = match self.slots.get(key) {
            Some(i) => Some(*i),
            None => None,
        };
        match at {
            Some(i) => {
                assert(self.slots@.contains_key(key@));
                assert(before[i as int] == (self.rows@[i as int].0@, self.rows@[i as int].1));
                let k = key.to_string();
                self.rows.set(i, (k, value));
                assert(self@ =~= put(before, key@, value));
            },
            None => {
                assert(!self.slots@.contains_key(key@));
                let n: usize = self.rows.len();
                self.rows.push((key.to_string(), value));
                self.slots.insert(key.to_string(), n);
                assert(self@ =~= put(before, key@, value));
            },
        }
    }

    /// The key in row `i`.
    pub fn key_at(&self, i: usize) -> (key: &String)
        requires
            i < self@.len(),
        ensures
            key@ == self@[i as int].0,
    {
        &self.rows[i].0
    }

    /// The value in row `i`.
    pub fn value_at(&self, i: usize) -> (value: V)
        requires
            i < self@.len(),
        ensures
            value == self@[i as int].1,
    {
        self.rows[i].1
    }

    /// A table with the same rows.
    pub fn copy(&self) -> (t: Table<V>)
        requires
            self.wf(),
        ensures
            t.wf(),
            t@ == self@,
    {
        let mut t: Table<V> = Table::new();
        for i in 0..self.rows.len()
            invariant
                self.wf(),
                t.wf(),
                t@ == self@.take(i as int),
        {
            let r = &self.rows[i];
            proof {
                assert(self@[i as int] == (r.0@, r.1));
                lemma_slot(t@, r.0@);
                if slot(t@, r.0@) >= 0 {
                    assert(self@[slot(t@, r.0@)].0 == self@[i as int].0);
                }
                assert(self@.take(i + 1) =~= self@.take(i as int).push(self@[i as int]));
            }
            t.insert(r.0.as_str(), r.1);
        }
        assert(self@.take(self@.len() as int) =~= self@);
        t
    }
}

} // verus!
