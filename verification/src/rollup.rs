//! Rolled-up per-prefix aggregates.
//!
//! Keys are slash-separated paths. A put of key `a/b/c` updates the counters
//! of every prefix of the key: `""`, `a`, and `a/b`. Queries are a single map
//! lookup (hashing cost is O(depth) in the prefix length); no object scan is
//! ever performed.

use vstd::prelude::*;
use vstd::string::*;

use crate::table::{distinct, lemma_put, lemma_slot, lookup, put, slot, Rows, Table};

verus! {

#[derive(Debug, Clone, Copy, PartialEq, Eq)]
pub struct Aggregate {
    pub object_count: u64,
    pub byte_count: u64,
}

impl Default for Aggregate {
    fn default() -> (a: Aggregate)
        ensures
            a == (Aggregate { object_count: 0, byte_count: 0 }),
    {
        Aggregate { object_count: 0, byte_count: 0 }
    }
}

#[derive(Debug, Clone, PartialEq, Eq)]
pub struct AggDeltaEntry {
    pub prefix: String,
    pub object_count_delta: u64,
    pub byte_count_delta: u64,
}

/// What an [`AggDeltaEntry`] says.
#[verifier::ext_equal]
pub ghost struct DeltaModel {
    pub prefix: Seq<char>,
    pub object_count_delta: u64,
    pub byte_count_delta: u64,
}

impl View for AggDeltaEntry {
    type V = DeltaModel;

    open spec fn view(&self) -> DeltaModel {
        DeltaModel {
            prefix: self.prefix@,
            object_count_delta: self.object_count_delta,
            byte_count_delta: self.byte_count_delta,
        }
    }
}

impl Default for AggDeltaEntry {
    fn default() -> (d: AggDeltaEntry)
        ensures
            d@ == (DeltaModel { prefix: Seq::empty(), object_count_delta: 0, byte_count_delta: 0 }),
    {
        let prefix = String::new();
        assert(prefix@ =~= Seq::<char>::empty());
        AggDeltaEntry { prefix, object_count_delta: 0, byte_count_delta: 0 }
    }
}

/// Where the last run of characters without a slash starts.
pub open spec fn word_start(s: Seq<char>) -> int
    decreases s.len(),
{
    if s.len() == 0 || s.last() == '/' {
        s.len() as int
    } else {
        word_start(s.drop_last())
    }
}

/// The parts of a path: its longest runs of characters without a slash.
pub open spec fn segments(s: Seq<char>) -> Seq<Seq<char>>
    decreases s.len(),
{
    if s.len() == 0 {
        Seq::empty()
    } else if s.last() == '/' {
        segments(s.drop_last())
    } else {
        let w = word_start(s);
        if 0 <= w < s.len() {
            segments(s.take(w)).push(s.skip(w))
        } else {
            Seq::empty()
        }
    }
}

/// The parts with one slash between them.
pub open spec fn join(parts: Seq<Seq<char>>) -> Seq<char>
    decreases parts.len(),
{
    if parts.len() == 0 {
        Seq::empty()
    } else if parts.len() == 1 {
        parts[0]
    } else {
        join(parts.drop_last()) + seq!['/'] + parts.last()
    }
}

/// The prefixes of a key, from the root on: its parts without the last, and
/// so on up to none.
pub open spec fn prefixes(key: Seq<char>) -> Seq<Seq<char>> {
    let parts = segments(key);
    Seq::new(
        if parts.len() == 0 {
            1
        } else {
            parts.len()
        },
        |j: int| join(parts.take(j)),
    )
}

/// `key` counts towards the aggregate of `prefix`.
pub open spec fn counted(key: Seq<char>, prefix: Seq<char>) -> bool {
    prefixes(key).contains(prefix)
}

/// How many objects count towards `prefix`.
pub open spec fn object_count(live: Rows<u64>, prefix: Seq<char>) -> nat
    decreases live.len(),
{
    if live.len() == 0 {
        0
    } else {
        object_count(live.drop_last(), prefix) + if counted(live.last().0, prefix) {
            1nat
        } else {
            0nat
        }
    }
}

/// How many bytes count towards `prefix`.
pub open spec fn byte_count(live: Rows<u64>, prefix: Seq<char>) -> nat
    decreases live.len(),
{
    if live.len() == 0 {
        0
    } else {
        byte_count(live.drop_last(), prefix) + if counted(live.last().0, prefix) {
            live.last().1 as nat
        } else {
            0nat
        }
    }
}

/// A recount of `prefix` over all live objects.
pub open spec fn recount(live: Rows<u64>, prefix: Seq<char>) -> (nat, nat) {
    (object_count(live, prefix), byte_count(live, prefix))
}

proof fn lemma_object_count_remove(live: Rows<u64>, i: int, prefix: Seq<char>)
    requires
        0 <= i < live.len(),
    ensures
        object_count(live, prefix) == object_count(live.remove(i), prefix) + if counted(
            live[i].0,
            prefix,
        ) {
            1nat
        } else {
            0nat
        },
    decreases live.len(),
{
    if i == live.len() - 1 {
        assert(live.remove(i) =~= live.drop_last());
    } else {
        lemma_object_count_remove(live.drop_last(), i, prefix);
        assert(live.remove(i).drop_last() =~= live.drop_last().remove(i));
    }
}

/// One of `rows` is that of `key`.
pub open spec fn has_row(rows: Rows<u64>, key: Seq<char>) -> bool {
    exists|i: int| 0 <= i < rows.len() && (#[trigger] rows[i]).0 == key
}

/// Where all keys of `a` are among those of `b`, no fewer objects of `b` count
/// towards a prefix.
pub proof fn lemma_more_keys_count_more(a: Rows<u64>, b: Rows<u64>, prefix: Seq<char>)
    requires
        distinct(a),
        forall|i: int| 0 <= i < a.len() ==> has_row(b, (#[trigger] a[i]).0),
    ensures
        object_count(a, prefix) <= object_count(b, prefix),
    decreases a.len(),
{
    if a.len() > 0 {
        let front = a.drop_last();
        let last = a[a.len() - 1];
        assert(has_row(b, last.0));
        let j = choose|j: int| 0 <= j < b.len() && (#[trigger] b[j]).0 == last.0;
        let rest = b.remove(j);
        assert forall|x: int, y: int| 0 <= x < y < front.len() implies (#[trigger] front[x]).0 != (
        #[trigger] front[y]).0 by {
            assert(a[x].0 != a[y].0);
        }
        assert forall|i: int| 0 <= i < front.len() implies has_row(
            rest,
            (#[trigger] front[i]).0,
        ) by {
            assert(has_row(b, a[i].0));
            assert(a[i].0 != a[a.len() - 1].0);
            let k = choose|k: int| 0 <= k < b.len() && (#[trigger] b[k]).0 == a[i].0;
            if k < j {
                assert(rest[k].0 == front[i].0);
            } else {
                assert(rest[k - 1].0 == front[i].0);
            }
        }
        lemma_more_keys_count_more(front, rest, prefix);
        lemma_object_count_remove(b, j, prefix);
    }
}

proof fn lemma_word_start(s: Seq<char>)
    ensures
        0 <= word_start(s) <= s.len(),
        s.len() > 0 && s.last() != '/' ==> word_start(s) < s.len(),
        forall|i: int| word_start(s) <= i < s.len() ==> s[i] != '/',
        word_start(s) > 0 ==> s[word_start(s) - 1] == '/',
    decreases s.len(),
{
    if s.len() > 0 && s.last() != '/' {
        lemma_word_start(s.drop_last());
        let w = word_start(s);
        assert forall|i: int| w <= i < s.len() implies s[i] != '/' by {
            if i < s.len() - 1 {
                assert(s.drop_last()[i] == s[i]);
            }
        }
        if w > 0 && w == s.len() - 1 {
            assert(s.drop_last()[w - 1] == s[w - 1]);
        }
    }
}

/// Parts are not empty and hold no slash.
pub proof fn lemma_segments(s: Seq<char>)
    ensures
        forall|i: int|
            0 <= i < segments(s).len() ==> (#[trigger] segments(s)[i]).len() > 0
                && !segments(s)[i].contains('/'),
    decreases s.len(),
{
    if s.len() > 0 {
        if s.last() == '/' {
            lemma_segments(s.drop_last());
            assert(segments(s) == segments(s.drop_last()));
        } else {
            lemma_word_start(s);
            let w = word_start(s);
            lemma_segments(s.take(w));
            assert forall|i: int| 0 <= i < segments(s).len() implies (#[trigger] segments(s)[i]).len()
                > 0 && !segments(s)[i].contains('/') by {
                if i < segments(s.take(w)).len() {
                    assert(segments(s)[i] == segments(s.take(w))[i]);
                } else {
                    let t = s.skip(w);
                    if t.contains('/') {
                        let j = choose|j: int| 0 <= j < t.len() && t[j] == '/';
                        assert(s[w + j] == '/');
                    }
                }
            }
        }
    }
}

/// Joining more parts gives a longer path.
proof fn lemma_join_longer(parts: Seq<Seq<char>>, i: int, j: int)
    requires
        0 <= i < j <= parts.len(),
        forall|k: int| 0 <= k < parts.len() ==> (#[trigger] parts[k]).len() > 0,
    ensures
        join(parts.take(i)).len() < join(parts.take(j)).len(),
    decreases j,
{
    let pj = parts.take(j);
    assert(pj.drop_last() =~= parts.take(j - 1));
    assert(pj.last() == parts[j - 1]);
    if j == 1 {
        assert(parts.take(0) =~= Seq::<Seq<char>>::empty());
        assert(pj[0] == parts[0]);
    }
    if i < j - 1 {
        lemma_join_longer(parts, i, j - 1);
    }
}

/// The prefixes of a key are distinct.
pub proof fn lemma_prefixes_distinct(key: Seq<char>, i: int, j: int)
    requires
        0 <= i < j < prefixes(key).len(),
    ensures
        prefixes(key)[i] != prefixes(key)[j],
{
    lemma_segments(key);
    lemma_join_longer(segments(key), i, j);
}

/// Every key counts towards the root.
pub proof fn lemma_root_counts_all(key: Seq<char>)
    ensures
        counted(key, Seq::empty()),
{
    let parts = segments(key);
    assert(parts.take(0) =~= Seq::<Seq<char>>::empty());
    assert(prefixes(key)[0] == Seq::<char>::empty());
}

proof fn lemma_recount_at_most_root(live: Rows<u64>, prefix: Seq<char>)
    ensures
        byte_count(live, prefix) <= byte_count(live, Seq::empty()),
        object_count(live, prefix) <= live.len(),
    decreases live.len(),
{
    if live.len() > 0 {
        lemma_recount_at_most_root(live.drop_last(), prefix);
        lemma_root_counts_all(live.last().0);
    }
}

proof fn lemma_recount_push(live: Rows<u64>, key: Seq<char>, len: u64, prefix: Seq<char>)
    ensures
        object_count(live.push((key, len)), prefix) == object_count(live, prefix) + (if counted(
            key,
            prefix,
        ) {
            1nat
        } else {
            0nat
        }),
        byte_count(live.push((key, len)), prefix) == byte_count(live, prefix) + (if counted(
            key,
            prefix,
        ) {
            len as nat
        } else {
            0nat
        }),
{
    assert(live.push((key, len)).drop_last() =~= live);
}

proof fn lemma_recount_update(live: Rows<u64>, i: int, len: u64, prefix: Seq<char>)
    requires
        0 <= i < live.len(),
    ensures
        object_count(live.update(i, (live[i].0, len)), prefix) == object_count(live, prefix),
        byte_count(live.update(i, (live[i].0, len)), prefix) == byte_count(live, prefix) + (
        if counted(live[i].0, prefix) {
            len - live[i].1
        } else {
            0
        }),
        counted(live[i].0, prefix) ==> byte_count(live, prefix) >= live[i].1,
        counted(live[i].0, prefix) ==> object_count(live, prefix) >= 1,
    decreases live.len(),
{
    let after = live.update(i, (live[i].0, len));
    if i < live.len() - 1 {
        lemma_recount_update(live.drop_last(), i, len, prefix);
        assert(after.drop_last() =~= live.drop_last().update(i, (live[i].0, len)));
        assert(after.last() == live.last());
    } else {
        assert(after.drop_last() =~= live.drop_last());
    }
}

/// A recount after a put: a new key counts once more, an overwritten one
/// counts as before with its new length.
pub proof fn lemma_recount_put(live: Rows<u64>, key: Seq<char>, len: u64, prefix: Seq<char>)
    requires
        distinct(live),
    ensures
        recount(put(live, key, len), prefix) == (if !counted(key, prefix) {
            recount(live, prefix)
        } else {
            match lookup(live, key) {
                Some(was) => (
                    object_count(live, prefix),
                    (byte_count(live, prefix) - was + len) as nat,
                ),
                None => (object_count(live, prefix) + 1, byte_count(live, prefix) + len as nat),
            }
        }),
        counted(key, prefix) && lookup(live, key) is Some ==> byte_count(live, prefix) >= lookup(
            live,
            key,
        ).unwrap(),
{
    lemma_slot(live, key);
    let i = slot(live, key);
    if i >= 0 {
        lemma_recount_update(live, i, len, prefix);
    } else {
        lemma_recount_push(live, key, len, prefix);
    }
}

/// The parts of `prefix` are the first parts of `key`, which has more.
pub open spec fn under(key: Seq<char>, prefix: Seq<char>) -> bool {
    let ks = segments(key);
    let ps = segments(prefix);
    ps.len() < ks.len() && ps == ks.take(ps.len() as int)
}

proof fn lemma_word_start_is(s: Seq<char>, w: int)
    requires
        0 <= w <= s.len(),
        w > 0 ==> s[w - 1] == '/',
        forall|i: int| w <= i < s.len() ==> s[i] != '/',
    ensures
        word_start(s) == w,
{
    lemma_word_start(s);
    let v = word_start(s);
    if v < w {
        assert(s[w - 1] != '/');
    } else if w < v {
        assert(s[v - 1] == '/');
    }
}

/// Joining parts and taking the path apart gives the parts back.
#[verifier::rlimit(30)]
#[verifier::spinoff_prover]
pub proof fn lemma_segments_join(parts: Seq<Seq<char>>)
    requires
        forall|i: int|
            0 <= i < parts.len() ==> (#[trigger] parts[i]).len() > 0 && !parts[i].contains('/'),
    ensures
        segments(join(parts)) == parts,
    decreases parts.len(),
{
    let s = join(parts);
    if parts.len() == 0 {
        assert(parts =~= Seq::<Seq<char>>::empty());
    } else {
        let front = parts.drop_last();
        let last = parts.last();
        lemma_segments_join(front);
        assert forall|i: int| 0 <= i < last.len() implies last[i] != '/' by {
            assert(last.contains(last[i]));
        }
        let w = if parts.len() == 1 {
            0int
        } else {
            join(front).len() as int + 1
        };
        assert(s.skip(w) =~= last);
        assert forall|i: int| w <= i < s.len() implies s[i] != '/' by {
            assert(s.skip(w)[i - w] == last[i - w]);
        }
        lemma_word_start_is(s, w);
        assert(s.last() == last.last());
        if parts.len() == 1 {
            assert(s.take(w) =~= Seq::<char>::empty());
            assert(front =~= Seq::<Seq<char>>::empty());
        } else {
            assert(s.take(w).drop_last() =~= join(front));
            assert(segments(s.take(w)) == segments(join(front)));
        }
        assert(segments(s) == segments(s.take(w)).push(last));
        assert(front.push(last) =~= parts);
    }
}

/// A slash parts a path: what is before it and what is behind it have their
/// parts each, none of which runs across it.
pub proof fn lemma_slash_parts(a: Seq<char>, b: Seq<char>)
    ensures
        segments(a + seq!['/'] + b) == segments(a) + segments(b),
    decreases b.len(),
{
    let s = a + seq!['/'] + b;
    if b.len() == 0 {
        assert(s.drop_last() =~= a);
        assert(segments(s) =~= segments(a) + segments(b));
    } else if b.last() == '/' {
        lemma_slash_parts(a, b.drop_last());
        assert(s.drop_last() =~= a + seq!['/'] + b.drop_last());
    } else {
        lemma_word_start(b);
        let w = word_start(b);
        let v = a.len() + 1 + w;
        assert forall|i: int| v <= i < s.len() implies s[i] != '/' by {
            assert(s[i] == b[i - a.len() - 1]);
        }
        lemma_word_start_is(s, v);
        lemma_slash_parts(a, b.take(w));
        assert(s.take(v) =~= a + seq!['/'] + b.take(w));
        assert(s.skip(v) =~= b.skip(w));
        assert(s.last() == b.last());
        assert(segments(s) =~= segments(a) + segments(b));
    }
}

/// A path without a slash is its only part, and the empty path has none.
pub proof fn lemma_word_is_its_part(s: Seq<char>)
    requires
        !s.contains('/'),
    ensures
        s.len() > 0 ==> segments(s) == seq![s],
        s.len() == 0 ==> segments(s).len() == 0,
{
    if s.len() > 0 {
        assert forall|i: int| 0 <= i < s.len() implies s[i] != '/' by {
            assert(s.contains(s[i]));
        }
        lemma_word_start_is(s, 0);
        assert(s.take(0) =~= Seq::<char>::empty());
        assert(s.skip(0) =~= s);
        assert(s.last() != '/');
        assert(segments(s.take(0)) =~= Seq::<Seq<char>>::empty());
        assert(segments(s) =~= seq![s]);
    }
}

/// A key is under a prefix exactly when it is the prefix, a slash and some
/// more, slashes at the ends and repeated ones aside.
pub proof fn lemma_under_is_below(key: Seq<char>, prefix: Seq<char>)
    ensures
        under(key, prefix) <==> exists|rest: Seq<char>|
            segments(rest).len() > 0 && segments(key) == segments(
                #[trigger] (prefix + seq!['/'] + rest),
            ),
{
    let ks = segments(key);
    let ps = segments(prefix);
    if under(key, prefix) {
        let n = ps.len() as int;
        let more = ks.skip(n);
        lemma_segments(key);
        assert forall|i: int| 0 <= i < more.len() implies (#[trigger] more[i]).len() > 0
            && !more[i].contains('/') by {
            assert(more[i] == ks[n + i]);
        }
        lemma_segments_join(more);
        let rest = join(more);
        lemma_slash_parts(prefix, rest);
        assert(ks =~= ps + more);
        assert(segments(key) == segments(prefix + seq!['/'] + rest));
    }
    if exists|rest: Seq<char>|
        segments(rest).len() > 0 && segments(key) == segments(
            #[trigger] (prefix + seq!['/'] + rest),
        ) {
        let rest = choose|rest: Seq<char>|
            segments(rest).len() > 0 && segments(key) == segments(
                #[trigger] (prefix + seq!['/'] + rest),
            );
        lemma_slash_parts(prefix, rest);
        assert(ks.take(ps.len() as int) =~= ps);
    }
}

/// The prefixes of a key come from the root on, each with one part more than the
/// one before, up to the key without its last part. A key without parts has the
/// root for its only prefix.
pub proof fn lemma_prefixes_grow(key: Seq<char>, j: int)
    requires
        0 <= j < prefixes(key).len(),
    ensures
        prefixes(key)[0].len() == 0,
        segments(prefixes(key)[j]) == segments(key).take(j),
        prefixes(key)[j] == join(segments(prefixes(key)[j])),
        segments(key).len() > 0 ==> prefixes(key).len() == segments(key).len(),
        segments(key).len() == 0 ==> prefixes(key).len() == 1,
{
    let parts = segments(key);
    assert(parts.take(0) =~= Seq::<Seq<char>>::empty());
    lemma_segments(key);
    let front = parts.take(j);
    assert forall|i: int| 0 <= i < front.len() implies (#[trigger] front[i]).len() > 0
        && !front[i].contains('/') by {
        assert(front[i] == parts[i]);
    }
    lemma_segments_join(front);
}

/// The objects that count towards a prefix are those that are listed under
/// it, for keys with at least one part and prefixes written with single
/// slashes between parts.
pub proof fn lemma_counted_is_under(key: Seq<char>, prefix: Seq<char>)
    requires
        segments(key).len() > 0,
        prefix == join(segments(prefix)),
    ensures
        counted(key, prefix) <==> under(key, prefix),
{
    let ks = segments(key);
    let ps = segments(prefix);
    lemma_segments(key);
    if counted(key, prefix) {
        let j = choose|j: int| 0 <= j < prefixes(key).len() && prefixes(key)[j] == prefix;
        let front = ks.take(j);
        assert forall|i: int| 0 <= i < front.len() implies (#[trigger] front[i]).len() > 0
            && !front[i].contains('/') by {
            assert(front[i] == ks[i]);
        }
        lemma_segments_join(front);
        assert(ps == front);
    }
    if under(key, prefix) {
        assert(prefixes(key)[ps.len() as int] == join(ks.take(ps.len() as int)));
    }
}

/// The characters of a string.
fn chars_of(s: &str) -> (out: Vec<char>)
    ensures
        out@ == s@,
{
    let mut out: Vec<char> = Vec::new();
    for c in it: s.chars()
        invariant
            it.seq() == s@,
            out@ == s@.take(it.index()),
    {
        assert(s@.take(it.index() + 1) =~= s@.take(it.index()).push(c));
        out.push(c);
    }
    assert(s@.take(s@.len() as int) =~= s@);
    out
}

/// What strings say.
pub open spec fn texts(v: Seq<String>) -> Seq<Seq<char>> {
    v.map_values(|s: String| s@)
}

/// The parts of a path.
pub fn segments_of(s: &str) -> (parts: Vec<String>)
    ensures
        texts(parts@) == segments(s@),
{
    let chars = chars_of(s);
    let ghost t = s@;
    let mut parts: Vec<String> = Vec::new();
    let mut start: usize = 0;
    assert(t.take(0) =~= Seq::<char>::empty());
    for i in 0..chars.len()
        invariant
            t == s@,
            chars@ == t,
            start <= i,
            start == word_start(t.take(i as int)),
            texts(parts@) == segments(t.take(start as int)),
    {
        let ghost here = t.take(i as int);
        let ghost next = t.take(i + 1);
        proof {
            assert(next.drop_last() =~= here);
            lemma_word_start(here);
            assert(here.take(start as int) =~= t.take(start as int));
            assert(here.skip(start as int) =~= t.subrange(start as int, i as int));
        }
        if chars[i] == '/' {
            if start < i {
                let part = s.substring_char(start, i).to_string();
                assert(texts(parts@.push(part)) =~= texts(parts@).push(part@));
                parts.push(part);
            }
            assert(texts(parts@) == segments(here)) by {
                if start == i {
                    assert(here =~= t.take(start as int));
                }
            }
            start = i + 1;
            assert(t.take(start as int) =~= next);
        }
    }
    proof {
        assert(t.take(t.len() as int) =~= t);
        lemma_word_start(t);
        assert(t.skip(start as int) =~= t.subrange(start as int, t.len() as int));
    }
    if start < chars.len() {
        let part = s.substring_char(start, chars.len()).to_string();
        assert(texts(parts@.push(part)) =~= texts(parts@).push(part@));
        parts.push(part);
    } else {
        assert(t.take(start as int) =~= t);
    }
    parts
}

/// The prefixes of a key, from the root on.
pub fn prefixes_of(key: &str) -> (out: Vec<String>)
    ensures
        texts(out@) == prefixes(key@),
{
    let parts = segments_of(key);
    let ghost ps = segments(key@);
    let mut out: Vec<String> = Vec::new();
    let root = String::new();
    assert(root@ =~= Seq::<char>::empty());
    out.push(root);
    let mut prefix = String::new();
    proof {
        assert(prefix@ =~= Seq::<char>::empty());
        assert(ps.take(0) =~= Seq::<Seq<char>>::empty());
        reveal_strlit("/");
        assert("/"@ =~= seq!['/']);
        assert(ps.len() == parts@.len());
    }
    for i in 0..parts.len()
        invariant
            ps == texts(parts@),
            "/"@ == seq!['/'],
            prefix@ == join(ps.take(i as int)),
            texts(out@) == Seq::new(
                if i < ps.len() || ps.len() == 0 {
                    (i + 1) as nat
                } else {
                    ps.len()
                },
                |j: int| join(ps.take(j)),
            ),
    {
        let ghost next = ps.take(i + 1);
        proof {
            assert(next.drop_last() =~= ps.take(i as int));
            assert(next.last() == parts@[i as int]@);
        }
        if i > 0 {
            prefix.append("/");
        }
        prefix.append(parts[i].as_str());
        assert(prefix@ =~= join(next));
        if i + 1 < parts.len() {
            let p = prefix.clone();
            let ghost before = texts(out@);
            assert(texts(out@.push(p)) =~= before.push(p@));
            out.push(p);
        }
    }
    out
}

/// Per-prefix totals over the live objects.
pub struct Rollup {
    live: Table<u64>,
    aggregates: Table<Aggregate>,
}

/// The live objects with their lengths, in the order in which they were first
/// put.
impl View for Rollup {
    type V = Rows<u64>;

    closed spec fn view(&self) -> Rows<u64> {
        self.live@
    }
}

/// The stored totals of `prefix`.
spec fn stored(aggregates: Rows<Aggregate>, prefix: Seq<char>) -> (nat, nat) {
    match lookup(aggregates, prefix) {
        Some(a) => (a.object_count as nat, a.byte_count as nat),
        None => (0, 0),
    }
}

impl Default for Rollup {
    fn default() -> (r: Rollup)
        ensures
            r.wf(),
            r@ == Seq::<(Seq<char>, u64)>::empty(),
    {
        Rollup { live: Table::new(), aggregates: Table::new() }
    }
}

impl Rollup {
    /// The stored totals are those of a recount.
    pub closed spec fn wf(&self) -> bool {
        &&& self.live.wf()
        &&& self.aggregates.wf()
        &&& forall|prefix: Seq<char>|
            #[trigger] stored(self.aggregates@, prefix) == recount(self.live@, prefix)
    }

    pub proof fn lemma_distinct(&self)
        requires
            self.wf(),
        ensures
            distinct(self@),
    {
        self.live.lemma_distinct();
    }

    /// The totals fit in 64 bits.
    pub proof fn lemma_total(&self)
        requires
            self.wf(),
        ensures
            byte_count(self@, Seq::empty()) <= u64::MAX,
    {
        assert(stored(self.aggregates@, Seq::empty()) == recount(self.live@, Seq::empty()));
    }

    /// Records that the object `key` now has `len` bytes. A key that was there
    /// before is counted once, with its new length.
    pub fn record(&mut self, key: &str, len: u64)
        requires
            old(self).wf(),
            old(self)@.len() < u64::MAX,
            byte_count(put(old(self)@, key@, len), Seq::empty()) <= u64::MAX,
        ensures
            final(self).wf(),
            final(self)@ == put(old(self)@, key@, len),
    {
        let names = prefixes_of(key);
        let ghost ps = prefixes(key@);
        let ghost before = self.live@;
        let ghost after = put(before, key@, len);
        let ghost stored_before = self.aggregates@;
        let was: Option<u64> = self.live.get(key);
        proof {
            self.live.lemma_distinct();
            lemma_slot(before, key@);
        }
        for i in 0..names.len()
            invariant
                ps == prefixes(key@),
                texts(names@) == ps,
                before == self.live@,
                after == put(before, key@, len),
                was == lookup(before, key@),
                before.len() < u64::MAX,
                distinct(before),
                self.live.wf(),
                self.aggregates.wf(),
                byte_count(after, Seq::empty()) <= u64::MAX,
                forall|p: Seq<char>| #[trigger] stored(stored_before, p) == recount(before, p),
                forall|p: Seq<char>|
                    #[trigger] stored(self.aggregates@, p) == (if ps.take(i as int).contains(p) {
                        recount(after, p)
                    } else {
                        stored(stored_before, p)
                    }),
        {
            let name = &names[i];
            let ghost p = name@;
            proof {
                assert(p == ps[i as int]);
                assert(ps.contains(p));
                if ps.take(i as int).contains(p) {
                    let j = choose|j: int| 0 <= j < i && ps.take(i as int)[j] == p;
                    lemma_prefixes_distinct(key@, j, i as int);
                }
                assert(stored(self.aggregates@, p) == recount(before, p));
                lemma_recount_put(before, key@, len, p);
                lemma_recount_at_most_root(after, p);
                lemma_recount_at_most_root(before, p);
                self.aggregates.lemma_distinct();
            }
            let agg = match self.aggregates.get(name.as_str()) {
                Some(a) => a,
                None => Aggregate::default(),
            };
            let next = match was {
                Some(o) => Aggregate {
                    object_count: agg.object_count,
                    byte_count: agg.byte_count - o + len,
                },
                None => Aggregate {
                    object_count: agg.object_count + 1,
                    byte_count: agg.byte_count + len,
                },
            };
            let ghost mid = self.aggregates@;
            self.aggregates.insert(name.as_str(), next);
            proof {
                assert forall|q: Seq<char>| true implies #[trigger] stored(self.aggregates@, q) == (
                if ps.take(i + 1).contains(q) {
                    recount(after, q)
                } else {
                    stored(stored_before, q)
                }) by {
                    lemma_put(mid, p, next, q);
                    assert(stored(mid, q) == stored(mid, q));
                    let done = ps.take(i as int);
                    let more = ps.take(i + 1);
                    assert(more =~= done.push(p));
                    if q != p {
                        if more.contains(q) {
                            let j = choose|j: int| 0 <= j < more.len() && more[j] == q;
                            assert(done[j] == q);
                        }
                        if done.contains(q) {
                            let j = choose|j: int| 0 <= j < done.len() && done[j] == q;
                            assert(more[j] == q);
                        }
                    } else {
                        assert(more[i as int] == q);
                    }
                }
            }
        }
        self.live.insert(key, len);
        proof {
            assert(ps.take(ps.len() as int) =~= ps);
            assert forall|q: Seq<char>| true implies #[trigger] stored(self.aggregates@, q) == recount(
                self.live@,
                q,
            ) by {
                lemma_recount_put(before, key@, len, q);
                assert(stored(stored_before, q) == recount(before, q));
            }
        }
    }

    /// The deltas that a put of `len` bytes under `key` is logged with.
    pub fn deltas_for(key: &str, len: u64) -> (deltas: Vec<AggDeltaEntry>)
        ensures
            deltas@.map_values(|d: AggDeltaEntry| d@) == prefixes(key@).map_values(
                |p: Seq<char>|
                    DeltaModel { prefix: p, object_count_delta: 1, byte_count_delta: len },
            ),
    {
        let names = prefixes_of(key);
        let mut deltas: Vec<AggDeltaEntry> = Vec::new();
        for i in 0..names.len()
            invariant
                texts(names@) == prefixes(key@),
                deltas@.len() == i,
                forall|j: int|
                    0 <= j < i ==> (#[trigger] deltas@[j])@ == (DeltaModel {
                        prefix: prefixes(key@)[j],
                        object_count_delta: 1,
                        byte_count_delta: len,
                    }),
        {
            assert(prefixes(key@)[i as int] == names@[i as int]@);
            deltas.push(
                AggDeltaEntry {
                    prefix: names[i].clone(),
                    object_count_delta: 1,
                    byte_count_delta: len,
                },
            );
        }
        deltas
    }

    /// The totals of `prefix`: those of a recount over the live objects.
    pub fn get(&self, prefix: &str) -> (a: Aggregate)
        requires
            self.wf(),
        ensures
            (a.object_count as nat, a.byte_count as nat) == recount(self@, prefix@),
    {
        assert(stored(self.aggregates@, prefix@) == recount(self.live@, prefix@));
        match self.aggregates.get(prefix) {
            Some(a) => a,
            None => Aggregate::default(),
        }
    }

    /// The number of live objects.
    pub fn object_total(&self) -> (n: usize)
        ensures
            n == self@.len(),
    {
        self.live.len()
    }

    /// A rollup of the same objects.
    pub fn copy(&self) -> (r: Rollup)
        requires
            self.wf(),
        ensures
            r.wf(),
            r@ == self@,
    {
        Rollup { live: self.live.copy(), aggregates: self.aggregates.copy() }
    }
}

} // verus!
