//! Opening a store: replaying its log and looking at its segment files.

use std::collections::{BTreeMap, BTreeSet};
use std::sync::Arc;

use vstd::prelude::*;
use vstd::string::*;

use crate::error::{ErrorModel, StoreError};
use crate::layout::{
    committed_lengths, entries_end, lemma_played_bounds, lemma_put_bytes_prefix, moved, played,
    played_lengths, put_bytes, record_in_range, recovered, replaced, replaced_lengths, replayable,
    swaps, Layout, PutModel,
};
use crate::ordered::{keys_of, lists};
use crate::rollup::{lemma_recount_put, Rollup};
use crate::state::State;
use crate::table::Table;
use crate::visible::{blank, caught_up, lemma_blank, shows};
use crate::wal::{
    committed_part, cut_len, entry_models, high_water_of, lemma_committed_len, logged_models,
    mark_after, scan_of, EntryModel, Logged, Lsn, Record, RecordModel, RemapEntry, Wal, WalModel,
};

use super::cell::Publisher;
use super::{
    handles, put_models, seg_file, seg_name, share, Inner, Snap, Store, StoreOptions,
};

verus! {

/// The committed length of each segment, and the segments that were replaced.
struct Recovery {
    lengths: BTreeMap<u64, u64>,
    retired: Vec<u64>,
}

/// The old segments of replacements.
pub open spec fn retired(pairs: Seq<(u64, u64)>) -> Seq<u64> {
    pairs.map_values(|p: (u64, u64)| p.0)
}

/// What has been read of a log: the records that move values, by segment.
struct Moves {
    pairs: Vec<(u64, u64)>,
    entries: BTreeMap<u64, Vec<RemapEntry>>,
}

impl Moves {
    spec fn reflects(&self, log: Seq<Logged>) -> bool {
        &&& self.pairs@ == swaps(log)
        &&& forall|new: u64|
            #[trigger] moved(log, new) == (if self.entries@.contains_key(new) {
                entry_models(self.entries@[new]@)
            } else {
                Seq::empty()
            })
    }

    /// Adds the entries of one remap record.
    fn add_entries(&mut self, new: u64, entries: &Vec<RemapEntry>)
        ensures
            final(self).pairs@ == old(self).pairs@,
            forall|id: u64|
                #[trigger] final(self).entries@.contains_key(id) <==> old(self).entries@.contains_key(id)
                    || id == new,
            forall|id: u64|
                id != new && #[trigger] old(self).entries@.contains_key(id)
                    ==> final(self).entries@[id] == old(self).entries@[id],
            entry_models(final(self).entries@[new]@) == (if old(self).entries@.contains_key(new) {
                entry_models(old(self).entries@[new]@)
            } else {
                Seq::empty()
            }) + entry_models(entries@),
    {
        let mut all: Vec<RemapEntry> = match self.entries.remove(&new) {
            Some(es) => es,
            None => Vec::new(),
        };
        let ghost before = entry_models(all@);
        let ghost es = entry_models(entries@);
        for i in 0..entries.len()
            invariant
                es == entry_models(entries@),
                entry_models(all@) == before + es.take(i as int),
        {
            let e = entries[i].copy();
            proof {
                assert(es[i as int] == e@);
                assert(entry_models(all@.push(e)) =~= entry_models(all@).push(e@));
                assert(es.take(i + 1) =~= es.take(i as int).push(e@));
                assert((before + es.take(i as int)).push(e@) =~= before + es.take(i + 1));
            }
            all.push(e);
        }
        assert(es.take(es.len() as int) =~= es);
        self.entries.insert(new, all);
    }
}

impl<F> Inner<F> {
    /// Rebuilds the layout from the committed records of the log. Gives the
    /// committed length of each segment.
    fn recover(&mut self, records: &Vec<(Lsn, Record)>) -> (recovery: Recovery)
        requires
            old(self).wf(),
            old(self).layout() == Layout::empty(),
            replayable(logged_models(records@)),
        ensures
            final(self).wf(),
            final(self).state() == (State {
                layout: recovered(logged_models(records@)),
                ..old(self).state()
            }),
            recovery.lengths@ == committed_lengths(logged_models(records@)),
            recovery.retired@ == retired(swaps(logged_models(records@))),
    {
        let ghost log = logged_models(records@);
        let mut lengths: BTreeMap<u64, u64> = BTreeMap::new();
        let mut moves = Moves { pairs: Vec::new(), entries: BTreeMap::new() };
        assert(log.take(0) =~= Seq::<Logged>::empty());
        for i in 0..records.len()
            invariant
                self.wf(),
                log == logged_models(records@),
                replayable(log),
                self.state() == (State {
                    layout: played(log.take(i as int)),
                    ..old(self).state()
                }),
                lengths@ == played_lengths(log.take(i as int)),
                moves.reflects(log.take(i as int)),
        {
            let ghost done = log.take(i as int);
            let ghost more = log.take(i + 1);
            let ghost before = *self;
            let ghost moves_before = moves;
            let lsn: u64 = records[i].0;
            let rec = &records[i].1;
            proof {
                assert(log[i as int] == (lsn, rec@));
                assert(more.drop_last() =~= done);
                assert(more.last() == (lsn, rec@));
                lemma_put_bytes_prefix(log, i + 1);
                lemma_put_bytes_prefix(log, i as int);
                lemma_played_bounds(done);
                assert(record_in_range(log[i as int].1));
            }
            if lsn > self.applied_upto {
                self.applied_upto = lsn;
            }
            assert(self.layout() == before.layout().seen(lsn));
            match rec {
                Record::Put { key, len, .. } => {
                    proof {
                        lemma_recount_put(self.rollup@, key@, *len as u64, Seq::empty());
                    }
                    self.place(key.as_str(), *len, lsn);
                    lengths.insert(self.active_id, self.active_offset);
                },
                Record::SegmentSeal { segment_id, next_segment_id } => {
                    lengths.insert(*segment_id, self.active_offset);
                    self.sealed.push(*segment_id);
                    self.active_id = *next_segment_id;
                    self.active_offset = 0;
                },
                Record::SegmentSwap { old_segment_id, new_segment_id } => {
                    moves.pairs.push((*old_segment_id, *new_segment_id));
                },
                Record::SegmentRemap { new_segment_id, entries } => {
                    moves.add_entries(*new_segment_id, entries);
                },
                Record::Commit { lsn: c } => {
                    if *c > self.committed_lsn {
                        self.committed_lsn = *c;
                    }
                    if lsn > self.last_commit_block {
                        self.last_commit_block = lsn;
                    }
                },
                Record::AggDelta { .. } => {},
            }
            proof {
                assert(self.layout() =~= played(more));
                assert(self.state() =~= (State { layout: played(more), ..old(self).state() }));
                assert(moves.reflects(more)) by {
                    assert forall|new: u64| true implies #[trigger] moved(more, new) == (
                    if moves.entries@.contains_key(new) {
                        entry_models(moves.entries@[new]@)
                    } else {
                        Seq::empty()
                    }) by {
                        assert(moved(done, new) == (if moves_before.entries@.contains_key(new) {
                            entry_models(moves_before.entries@[new]@)
                        } else {
                            Seq::empty()
                        }));
                    }
                }
            }
        }
        assert(log.take(log.len() as int) =~= log);
        if !lengths.contains_key(&self.active_id) {
            lengths.insert(self.active_id, self.active_offset);
        }
        let ghost all_lengths = lengths@;
        let ghost pairs = swaps(log);
        let mut gone: Vec<u64> = Vec::new();
        assert(pairs.take(0) =~= Seq::<(u64, u64)>::empty());
        for i in 0..moves.pairs.len()
            invariant
                self.wf(),
                log == logged_models(records@),
                replayable(log),
                pairs == swaps(log),
                moves.reflects(log),
                self.state() == (State {
                    layout: replaced(played(log), log, pairs.take(i as int)),
                    ..old(self).state()
                }),
                lengths@ == replaced_lengths(all_lengths, log, pairs.take(i as int)),
                gone@ == retired(pairs.take(i as int)),
        {
            let (old_id, new) = moves.pairs[i];
            let ghost es = moved(log, new);
            proof {
                assert(pairs.take(i + 1).drop_last() =~= pairs.take(i as int));
                assert(pairs.take(i + 1).last() == (old_id, new));
                assert(retired(pairs.take(i + 1)) =~= retired(pairs.take(i as int)).push(old_id));
                lemma_moved_in_range(log, new);
            }
            let mut end: u64 = 0;
            if let Some(entries) = moves.entries.get(&new) {
                assert(es == entry_models(entries@));
                assert forall|j: int| 0 <= j < entries@.len() implies (#[trigger] entries@[j]).offset
                    + entries@[j].len <= u64::MAX by {
                    assert(es[j] == entries@[j]@);
                }
                self.repoint_all(entries, new);
                end = end_of(entries);
            } else {
                assert(es =~= Seq::<EntryModel>::empty());
            }
            lengths.insert(new, end);
            lengths.insert(old_id, 0);
            self.replace(old_id, new);
            gone.push(old_id);
        }
        assert(pairs.take(pairs.len() as int) =~= pairs);
        Recovery { lengths, retired: gone }
    }
}

/// Where the last of the entries ends.
fn end_of(entries: &Vec<RemapEntry>) -> (end: u64)
    requires
        forall|i: int|
            0 <= i < entries@.len() ==> (#[trigger] entries@[i]).offset + entries@[i].len <= u64::MAX,
    ensures
        end == entries_end(entry_models(entries@)),
{
    let ghost es = entry_models(entries@);
    let mut end: u64 = 0;
    assert(es.take(0) =~= Seq::<EntryModel>::empty());
    for i in 0..entries.len()
        invariant
            es == entry_models(entries@),
            forall|j: int|
                0 <= j < entries@.len() ==> (#[trigger] entries@[j]).offset + entries@[j].len
                    <= u64::MAX,
            end == entries_end(es.take(i as int)),
    {
        assert(es.take(i + 1).drop_last() =~= es.take(i as int));
        let e = &entries[i];
        assert(entries@[i as int].offset + entries@[i as int].len <= u64::MAX);
        assert(es[i as int] == e@);
        let stop: u64 = e.offset + e.len as u64;
        if stop > end {
            end = stop;
        }
    }
    assert(es.take(es.len() as int) =~= es);
    end
}

proof fn lemma_moved_in_range(log: Seq<Logged>, new: u64)
    requires
        forall|i: int| 0 <= i < log.len() ==> record_in_range((#[trigger] log[i]).1),
    ensures
        forall|i: int|
            0 <= i < moved(log, new).len() ==> (#[trigger] moved(log, new)[i]).offset + moved(
                log,
                new,
            )[i].len <= u64::MAX,
    decreases log.len(),
{
    if log.len() > 0 {
        let front = log.drop_last();
        assert forall|i: int| 0 <= i < front.len() implies record_in_range((#[trigger] front[i]).1) by {
            assert(front[i] == log[i]);
        }
        lemma_moved_in_range(front, new);
        assert(record_in_range(log[log.len() - 1].1));
        let rest = moved(front, new);
        assert forall|i: int| 0 <= i < moved(log, new).len() implies (#[trigger] moved(
            log,
            new,
        )[i]).offset + moved(log, new)[i].len <= u64::MAX by {
            if i < rest.len() {
                assert(moved(log, new)[i] == rest[i]);
            } else {
                let entries = log.last().1->entries;
                assert(moved(log, new)[i] == entries[i - rest.len()]);
            }
        }
    }
}

/// A store that is being opened: its log is replayed, its segment files are
/// still to be looked at.
#[verifier::reject_recursive_types(F)]
pub struct Opening<F> {
    inner: Inner<F>,
    recovery: Recovery,
    wal_len: u64,
}

/// The committed records of a WAL file can be replayed within 64 bits.
pub open spec fn openable(wal_file: Seq<u8>) -> bool {
    &&& high_water_of(scan_of(wal_file)) < u64::MAX
    &&& replayable(committed_part(scan_of(wal_file)))
}

fn in_range(rec: &Record) -> (ok: bool)
    ensures
        ok == record_in_range(rec@),
{
    match rec {
        Record::SegmentSeal { segment_id, next_segment_id } => *segment_id < u64::MAX
            && *next_segment_id < u64::MAX,
        Record::SegmentSwap { old_segment_id, new_segment_id } => *old_segment_id < u64::MAX
            && *new_segment_id < u64::MAX,
        Record::SegmentRemap { new_segment_id, entries } => {
            let ghost es = entry_models(entries@);
            for i in 0..entries.len()
                invariant
                    es == entry_models(entries@),
                    rec@ == (RecordModel::SegmentRemap {
                        new_segment_id: *new_segment_id,
                        entries: es,
                    }),
                    forall|j: int|
                        0 <= j < i ==> (#[trigger] es[j]).offset + es[j].len <= u64::MAX,
            {
                let e = &entries[i];
                assert(es[i as int] == e@);
                if e.offset > u64::MAX - e.len as u64 {
                    assert(!(es[i as int].offset + es[i as int].len <= u64::MAX));
                    assert(!record_in_range(rec@)) by {
                        let found = match rec@ {
                            RecordModel::SegmentRemap { entries, .. } => entries,
                            _ => es,
                        };
                        assert(found[i as int].offset + found[i as int].len > u64::MAX);
                    }
                    return false;
                }
            }
            true
        },
        _ => true,
    }
}

/// Whether the committed records of a WAL file can be replayed within 64 bits.
pub fn can_open(wal_file: &[u8]) -> (ok: bool)
    ensures
        ok == openable(wal_file@),
{
    let (records, high_water) = Wal::replay_with_lsns(wal_file);
    let ghost log = logged_models(records@);
    if high_water == u64::MAX || records.len() as u64 == u64::MAX {
        return false;
    }
    let mut total: u64 = 0;
    assert(log.take(0) =~= Seq::<Logged>::empty());
    for i in 0..records.len()
        invariant
            log == logged_models(records@),
            log == committed_part(scan_of(wal_file@)),
            total == put_bytes(log.take(i as int)),
            forall|j: int| 0 <= j < i ==> record_in_range((#[trigger] log[j]).1),
    {
        let rec = &records[i].1;
        proof {
            assert(log[i as int] == (records@[i as int].0, rec@));
            assert(log.take(i + 1).drop_last() =~= log.take(i as int));
            lemma_put_bytes_prefix(log, i + 1);
        }
        if !in_range(rec) {
            assert(!record_in_range(log[i as int].1));
            return false;
        }
        if let Record::Put { len, .. } = rec {
            if total > u64::MAX - *len as u64 {
                return false;
            }
            total += *len as u64;
        }
    }
    assert(log.take(log.len() as int) =~= log);
    true
}

/// The next free number after those in `dom`, those of `existing` and
/// `active`.
pub open spec fn next_after(n: u64, dom: Set<u64>, existing: Seq<(u64, u64)>, active: u64) -> bool {
    &&& forall|id: u64| #[trigger] dom.contains(id) ==> id < n
    &&& forall|i: int| 0 <= i < existing.len() ==> (#[trigger] existing[i]).0 < n
    &&& active < n
    &&& {
        ||| dom.contains((n - 1) as u64)
        ||| n - 1 == active
        ||| exists|i: int| 0 <= i < existing.len() && (#[trigger] existing[i]).0 == n - 1
    }
}

/// A file of segment `id` exists.
pub open spec fn has_file(existing: Seq<(u64, u64)>, id: u64) -> bool {
    exists|i: int| 0 <= i < existing.len() && (#[trigger] existing[i]).0 == id
}

/// The committed length of segment `id`; zero if the log does not know it.
pub open spec fn target(lengths: Map<u64, u64>, id: u64) -> u64 {
    if lengths.contains_key(id) {
        lengths[id]
    } else {
        0
    }
}

/// Segment `id` has committed bytes, and no file.
pub open spec fn missing(lengths: Map<u64, u64>, existing: Seq<(u64, u64)>, id: u64) -> bool {
    target(lengths, id) > 0 && !has_file(existing, id)
}

proof fn lemma_lengths_in_range(log: Seq<Logged>)
    requires
        forall|i: int| 0 <= i < log.len() ==> record_in_range((#[trigger] log[i]).1),
    ensures
        played(log).active_id < u64::MAX,
        forall|id: u64| #[trigger] played_lengths(log).contains_key(id) ==> id < u64::MAX,
        forall|i: int|
            0 <= i < swaps(log).len() ==> (#[trigger] swaps(log)[i]).0 < u64::MAX && swaps(log)[i].1
                < u64::MAX,
    decreases log.len(),
{
    if log.len() > 0 {
        let front = log.drop_last();
        assert forall|i: int| 0 <= i < front.len() implies record_in_range((#[trigger] front[i]).1) by {
            assert(front[i] == log[i]);
        }
        lemma_lengths_in_range(front);
        assert(record_in_range(log[log.len() - 1].1));
        assert forall|id: u64| #[trigger] played_lengths(log).contains_key(id) implies id
            < u64::MAX by {
            if played_lengths(front).contains_key(id) {
                assert(id < u64::MAX);
            }
        }
        assert forall|i: int| 0 <= i < swaps(log).len() implies (#[trigger] swaps(log)[i]).0
            < u64::MAX && swaps(log)[i].1 < u64::MAX by {
            if i < swaps(front).len() {
                assert(swaps(log)[i] == swaps(front)[i]);
            }
        }
    }
}

proof fn lemma_replaced_lengths_in_range(
    lens: Map<u64, u64>,
    log: Seq<Logged>,
    pairs: Seq<(u64, u64)>,
)
    requires
        forall|id: u64| #[trigger] lens.contains_key(id) ==> id < u64::MAX,
        forall|i: int|
            0 <= i < pairs.len() ==> (#[trigger] pairs[i]).0 < u64::MAX && pairs[i].1 < u64::MAX,
    ensures
        forall|id: u64|
            #[trigger] replaced_lengths(lens, log, pairs).contains_key(id) ==> id < u64::MAX,
    decreases pairs.len(),
{
    if pairs.len() > 0 {
        let front = pairs.drop_last();
        assert forall|i: int| 0 <= i < front.len() implies (#[trigger] front[i]).0 < u64::MAX
            && front[i].1 < u64::MAX by {
            assert(front[i] == pairs[i]);
        }
        lemma_replaced_lengths_in_range(lens, log, front);
        assert(pairs[pairs.len() - 1].0 < u64::MAX);
        assert forall|id: u64| #[trigger] replaced_lengths(lens, log, pairs).contains_key(id) implies id
            < u64::MAX by {
            if replaced_lengths(lens, log, front).contains_key(id) {
                assert(id < u64::MAX);
            }
        }
    }
}

impl<F> Opening<F> {
    pub closed spec fn wf(&self) -> bool {
        &&& self.inner.wf()
        &&& self.inner.active_id < u64::MAX
        &&& forall|id: u64| #[trigger] self.lengths().contains_key(id) ==> id < u64::MAX
    }

    pub closed spec fn state(&self) -> State<F> {
        self.inner.state()
    }

    /// The committed length of each segment.
    pub closed spec fn lengths(&self) -> Map<u64, u64> {
        self.recovery.lengths@
    }

    /// The segments that were replaced.
    pub closed spec fn replaced(&self) -> Seq<u64> {
        self.recovery.retired@
    }

    /// The length of the committed part of the WAL file.
    pub closed spec fn wal_length(&self) -> u64 {
        self.wal_len
    }

    /// The mark that this recovery leaves. It is to be kept before the WAL
    /// file is truncated.
    pub fn mark(&self) -> (mark: Lsn)
        requires
            self.wf(),
        ensures
            mark == self.state().last_lsn(),
    {
        self.inner.wal.next_lsn() - 1
    }

    /// The length to which the WAL file is to be truncated.
    pub fn wal_len(&self) -> (len: u64)
        ensures
            len == self.wal_length(),
    {
        self.wal_len
    }

    /// Holds the segment files that exist, with their lengths, against the
    /// log. Gives the length to which each of them is to be truncated.
    pub fn check_files(&mut self, existing: &Vec<(u64, u64)>) -> (res: Result<
        Vec<(u64, u64)>,
        StoreError,
    >)
        requires
            old(self).wf(),
            forall|i: int| 0 <= i < existing@.len() ==> (#[trigger] existing@[i]).0 < u64::MAX,
        ensures
            final(self).wf(),
            final(self).lengths() == old(self).lengths(),
            final(self).replaced() == old(self).replaced(),
            final(self).wal_length() == old(self).wal_length(),
            match res {
                Ok(cuts) => {
                    &&& forall|id: u64| !#[trigger] missing(old(self).lengths(), existing@, id)
                    &&& cuts@.len() == existing@.len()
                    &&& forall|i: int|
                        0 <= i < existing@.len() ==> (#[trigger] cuts@[i]) == (
                            existing@[i].0,
                            target(old(self).lengths(), existing@[i].0),
                        ) && existing@[i].1 >= cuts@[i].1
                    &&& next_after(
                        final(self).state().next_free_id,
                        old(self).lengths().dom(),
                        existing@,
                        old(self).state().layout.active_id,
                    )
                    &&& final(self).state() == (State {
                        next_free_id: final(self).state().next_free_id,
                        ..old(self).state()
                    })
                },
                Err(e) => {
                    &&& final(self).state() == old(self).state()
                    &&& {
                        ||| exists|id: u64| #[trigger] missing(old(self).lengths(), existing@, id)
                            && e@ == ErrorModel::Corrupt(
                            "segment "@ + seg_file(id) + " referenced by WAL is missing"@,
                        )
                        ||| exists|i: int|
                            0 <= i < existing@.len() && (#[trigger] existing@[i]).1 < target(
                                old(self).lengths(),
                                existing@[i].0,
                            ) && (forall|id: u64|
                                !#[trigger] missing(old(self).lengths(), existing@, id)) && e@
                                == ErrorModel::Corrupt(
                                "segment "@ + seg_file(existing@[i].0)
                                    + " is shorter than its committed length"@,
                            )
                    }
                },
            },
    {
        let ids = keys_of(&self.recovery.lengths);
        let ghost lengths = self.recovery.lengths@;
        let ghost dom = lengths.dom();
        let mut max_id: u64 = self.inner.active_id;
        for i in 0..ids.len()
            invariant
                self.wf(),
                lengths == self.recovery.lengths@,
                dom == lengths.dom(),
                lists(ids@, dom),
                self.inner.active_id <= max_id < u64::MAX,
                dom.contains(max_id) || max_id == self.inner.active_id,
                forall|j: int| 0 <= j < i ==> #[trigger] ids@[j] <= max_id,
                forall|j: int| 0 <= j < i ==> !missing(lengths, existing@, #[trigger] ids@[j]),
                *self == *old(self),
        {
            let id: u64 = ids[i];
            assert(ids@.contains(id));
            assert(dom.contains(id));
            assert(self.lengths().contains_key(id));
            let committed: u64 = match self.recovery.lengths.get(&id) {
                Some(t) => *t,
                None => 0,
            };
            if committed > 0 && !file_exists(existing, id) {
                assert(missing(lengths, existing@, id));
                let mut msg = "segment ".to_string();
                msg.append(seg_name(id).as_str());
                msg.append(" referenced by WAL is missing");
                return Err(StoreError::Corrupt(msg));
            }
            if id > max_id {
                max_id = id;
            }
        }
        assert forall|id: u64| !#[trigger] missing(lengths, existing@, id) by {
            if lengths.contains_key(id) {
                assert(dom.contains(id));
                let j = choose|j: int| 0 <= j < ids@.len() && ids@[j] == id;
                assert(!missing(lengths, existing@, ids@[j]));
            }
        }
        let mut cuts: Vec<(u64, u64)> = Vec::new();
        for i in 0..existing.len()
            invariant
                self.wf(),
                *self == *old(self),
                lengths == self.recovery.lengths@,
                dom == lengths.dom(),
                lists(ids@, dom),
                self.inner.active_id <= max_id < u64::MAX,
                forall|id: u64| !#[trigger] missing(lengths, existing@, id),
                forall|j: int| 0 <= j < existing@.len() ==> (#[trigger] existing@[j]).0 < u64::MAX,
                ({
                    ||| dom.contains(max_id)
                    ||| max_id == self.inner.active_id
                    ||| exists|j: int| 0 <= j < i && (#[trigger] existing@[j]).0 == max_id
                }),
                forall|j: int| 0 <= j < ids@.len() ==> #[trigger] ids@[j] <= max_id,
                forall|j: int| 0 <= j < i ==> (#[trigger] existing@[j]).0 <= max_id,
                cuts@.len() == i,
                forall|j: int|
                    0 <= j < i ==> (#[trigger] cuts@[j]) == (
                        existing@[j].0,
                        target(lengths, existing@[j].0),
                    ) && existing@[j].1 >= cuts@[j].1,
        {
            let (id, actual) = existing[i];
            assert(existing@[i as int].0 < u64::MAX);
            let committed: u64 = match self.recovery.lengths.get(&id) {
                Some(t) => *t,
                None => 0,
            };
            assert(committed == target(lengths, id));
            if actual < committed {
                assert(existing@[i as int].1 < target(lengths, existing@[i as int].0));
                let mut msg = "segment ".to_string();
                msg.append(seg_name(id).as_str());
                msg.append(" is shorter than its committed length");
                return Err(StoreError::Corrupt(msg));
            }
            cuts.push((id, committed));
            if id > max_id {
                max_id = id;
                assert(existing@[i as int].0 == max_id);
            }
        }
        self.inner.next_free_id = max_id + 1;
        proof {
            assert forall|id: u64| #[trigger] dom.contains(id) implies id < max_id + 1 by {
                let j = choose|j: int| 0 <= j < ids@.len() && ids@[j] == id;
                assert(ids@[j] <= max_id);
            }
        }
        Ok(cuts)
    }

    /// The replaced segments, whose files are to be deleted.
    pub fn retired(&self) -> (ids: &Vec<u64>)
        ensures
            ids@ == self.replaced(),
    {
        &self.recovery.retired
    }

    /// The segments whose files are to be opened, in order.
    pub fn wanted(&self) -> (ids: Vec<u64>)
        ensures
            lists(ids@, self.lengths().dom()),
    {
        keys_of(&self.recovery.lengths)
    }

    /// Completes the opening with the files of the wanted segments.
    pub fn finish(self, files: Vec<(u64, Arc<F>)>) -> (store: Store<F>)
        requires
            self.wf(),
        ensures
            store.wf(),
            store.state() == (State {
                open: attached(self.state().open, files@.map_values(|f: (u64, Arc<F>)| (f.0, *f.1))),
                ..self.state()
            }),
            store.shown() == shows(store.state().snapshot(), blank()),
    {
        let mut inner = self.inner;
        let ghost before = inner.state();
        let ghost fs = files@.map_values(|f: (u64, Arc<F>)| (f.0, *f.1));
        assert(fs.take(0) =~= Seq::<(u64, F)>::empty());
        for i in 0..files.len()
            invariant
                inner.wf(),
                fs == files@.map_values(|f: (u64, Arc<F>)| (f.0, *f.1)),
                inner.state() == (State {
                    open: attached(before.open, fs.take(i as int)),
                    ..before
                }),
        {
            assert(fs.take(i + 1).drop_last() =~= fs.take(i as int));
            let f = &files[i];
            inner.attach(f.0, share(&f.1));
        }
        assert(fs.take(fs.len() as int) =~= fs);
        let first = match Snap::of(&inner) {
            Some(snap) => {
                proof {
                    lemma_blank(snap.model());
                }
                snap
            },
            None => Snap::blank(),
        };
        let published = Arc::new(first);
        let snap = Publisher::new(share(&published));
        Store { inner, published, snap }
    }
}

/// `open` with `files` added.
pub open spec fn attached<F>(open: Map<u64, F>, files: Seq<(u64, F)>) -> Map<u64, F>
    decreases files.len(),
{
    if files.len() == 0 {
        open
    } else {
        attached(open, files.drop_last()).insert(files.last().0, files.last().1)
    }
}

fn file_exists(existing: &Vec<(u64, u64)>, id: u64) -> (r: bool)
    ensures
        r == has_file(existing@, id),
{
    for i in 0..existing.len()
        invariant
            forall|j: int| 0 <= j < i ==> (#[trigger] existing@[j]).0 != id,
    {
        if existing[i].0 == id {
            assert(existing@[i as int].0 == id);
            return true;
        }
    }
    false
}

impl<F> Store<F> {
    /// Opens a store with the default options; see
    /// [`Store::open_with_options`].
    pub fn open(wal_file: &[u8], floor: Lsn) -> (opening: Opening<F>)
        requires
            openable(wal_file@),
            floor < u64::MAX,
        ensures
            opening.wf(),
            opens(opening, wal_file@, 16777216, floor),
    {
        Self::open_with_options(wal_file, floor, StoreOptions::default())
    }

    /// Opens a store from the bytes of its WAL file: replays the committed
    /// records, which rebuilds the key index and the prefix aggregates, and
    /// resumes past the recovered high-water LSN and past `floor`, the mark
    /// that the last recovery left.
    pub fn open_with_options(wal_file: &[u8], floor: Lsn, options: StoreOptions) -> (opening:
        Opening<F>)
        requires
            openable(wal_file@),
            floor < u64::MAX,
        ensures
            opening.wf(),
            opens(opening, wal_file@, options.segment_max_bytes, floor),
    {
        let (records, _high_water) = Wal::replay_with_lsns(wal_file);
        let (wal, wal_len) = Wal::open(wal_file, floor);
        let mut inner: Inner<F> = Inner {
            options,
            wal,
            segments: BTreeMap::new(),
            index: Table::new(),
            put_locations: BTreeMap::new(),
            rollup: Rollup::default(),
            active_id: 0,
            active_offset: 0,
            pending: false,
            committed_lsn: 0,
            last_commit_block: 0,
            applied_upto: 0,
            dirty_segments: BTreeSet::new(),
            sealed: Vec::new(),
            next_free_id: 0,
            pending_swap: None,
            durable_commit: 0,
        };
        proof {
            assert(put_models(inner.put_locations@) =~= Map::<u64, PutModel>::empty());
            assert(handles(inner.segments@) =~= Map::<u64, F>::empty());
            assert(inner.layout() =~= Layout::empty());
        }
        let recovery = inner.recover(&records);
        inner.durable_commit = inner.last_commit_block;
        inner.pending = !inner.caught_up();
        proof {
            let log = logged_models(records@);
            lemma_lengths_in_range(log);
            let l = played(log);
            let lens = played_lengths(log);
            let all = if lens.contains_key(l.active_id) {
                lens
            } else {
                lens.insert(l.active_id, l.active_offset)
            };
            lemma_replaced_lengths_in_range(all, log, swaps(log));
            lemma_replaced_active(l, log, swaps(log));
            lemma_committed_len(scan_of(wal_file@));
            assert(inner.state() =~= opened_state::<F>(
                wal_file@,
                options.segment_max_bytes,
                floor,
            ));
        }
        Opening { inner, recovery, wal_len }
    }
}

/// The state of a store whose log was just replayed. `floor` is the mark that
/// the last recovery left.
pub open spec fn opened_state<F>(wal_file: Seq<u8>, max: u64, floor: u64) -> State<F> {
    let log = committed_part(scan_of(wal_file));
    State {
        max,
        layout: recovered(log),
        wal: WalModel {
            durable: log,
            buffered: Seq::empty(),
            next_lsn: (mark_after(scan_of(wal_file), floor) + 1) as u64,
        },
        open: Map::empty(),
        pending: !caught_up(recovered(log)),
        dirty: Set::empty(),
        next_free_id: 0,
        swap: None,
        durable_commit: recovered(log).last_commit_block,
    }
}

/// `opening` is what the bytes of a WAL file give.
pub open spec fn opens<F>(opening: Opening<F>, wal_file: Seq<u8>, max: u64, floor: u64) -> bool {
    let log = committed_part(scan_of(wal_file));
    &&& opening.state() == opened_state::<F>(wal_file, max, floor)
    &&& opening.lengths() == committed_lengths(log)
    &&& opening.replaced() == retired(swaps(log))
    &&& opening.wal_length() == cut_len(wal_file)
}

proof fn lemma_repoint_all_active(l: Layout, es: Seq<EntryModel>, new: u64)
    ensures
        l.repoint_all(es, new).active_id == l.active_id,
        l.repoint_all(es, new).active_offset == l.active_offset,
        l.repoint_all(es, new).live == l.live,
        l.repoint_all(es, new).sealed == l.sealed,
    decreases es.len(),
{
    if es.len() > 0 {
        lemma_repoint_all_active(l, es.drop_last(), new);
    }
}

proof fn lemma_replaced_active(l: Layout, log: Seq<Logged>, pairs: Seq<(u64, u64)>)
    ensures
        replaced(l, log, pairs).active_id == l.active_id,
    decreases pairs.len(),
{
    if pairs.len() > 0 {
        lemma_replaced_active(l, log, pairs.drop_last());
        let (old, new) = pairs.last();
        lemma_repoint_all_active(replaced(l, log, pairs.drop_last()), moved(log, new), new);
    }
}
} // verus!
