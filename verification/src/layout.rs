//! Where values live: the key index, the place of every put, and the segments
//! in use, as the records of the log build them up.

use vstd::prelude::*;

use crate::rollup::{byte_count, lemma_recount_put};
use crate::table::{distinct, lemma_put, lemma_slot, lookup, put, Rows};
use crate::wal::{EntryModel, Logged, RecordModel};

verus! {

/// The place of the newest value of a key.
#[derive(Debug, Clone, Copy, PartialEq, Eq, Structural)]
pub struct Location {
    pub seg: u64,
    pub offset: u64,
    pub len: u32,
    pub lsn: u64,
}

/// The place of the value that one put wrote.
#[derive(Debug, Clone)]
pub struct PutLocation {
    pub key: String,
    pub seg: u64,
    pub offset: u64,
    pub len: u32,
}

/// What a [`PutLocation`] says.
#[verifier::ext_equal]
pub ghost struct PutModel {
    pub key: Seq<char>,
    pub seg: u64,
    pub offset: u64,
    pub len: u32,
}

impl View for PutLocation {
    type V = PutModel;

    open spec fn view(&self) -> PutModel {
        PutModel { key: self.key@, seg: self.seg, offset: self.offset, len: self.len }
    }
}

/// What the records of a log say about where values live.
#[verifier::ext_equal]
pub ghost struct Layout {
    /// The newest value of each key.
    pub index: Rows<Location>,
    /// The value of each put, by LSN.
    pub puts: Map<u64, PutModel>,
    /// The length of each object, as its last put gave it.
    pub live: Rows<u64>,
    /// The segment that takes new values.
    pub active_id: u64,
    /// The length of the active segment.
    pub active_offset: u64,
    /// The segments that take no more values.
    pub sealed: Seq<u64>,
    pub committed_lsn: u64,
    pub last_commit_block: u64,
    pub applied_upto: u64,
}

pub open spec fn max_u64(a: u64, b: u64) -> u64 {
    if a >= b {
        a
    } else {
        b
    }
}

/// `ids` without `id`.
pub open spec fn without(ids: Seq<u64>, id: u64) -> Seq<u64>
    decreases ids.len(),
{
    if ids.len() == 0 {
        Seq::empty()
    } else if ids.last() == id {
        without(ids.drop_last(), id)
    } else {
        without(ids.drop_last(), id).push(ids.last())
    }
}

impl Layout {
    /// Nothing stored yet.
    pub open spec fn empty() -> Layout {
        Layout {
            index: Seq::empty(),
            puts: Map::empty(),
            live: Seq::empty(),
            active_id: 0,
            active_offset: 0,
            sealed: Seq::empty(),
            committed_lsn: 0,
            last_commit_block: 0,
            applied_upto: 0,
        }
    }

    /// A value of `len` bytes is put under `key` at the end of the active
    /// segment.
    pub open spec fn put(self, key: Seq<char>, len: u32, lsn: u64) -> Layout {
        let at = Location { seg: self.active_id, offset: self.active_offset, len, lsn };
        Layout {
            index: put(self.index, key, at),
            puts: self.puts.insert(
                lsn,
                PutModel { key, seg: self.active_id, offset: self.active_offset, len },
            ),
            live: put(self.live, key, len as u64),
            active_offset: (self.active_offset + len) as u64,
            ..self
        }
    }

    /// Segment `id` is sealed and `next` becomes the active one.
    pub open spec fn seal(self, id: u64, next: u64) -> Layout {
        Layout { sealed: self.sealed.push(id), active_id: next, active_offset: 0, ..self }
    }

    /// A commit of everything up to `upto`, logged at `lsn`.
    pub open spec fn commit(self, upto: u64, lsn: u64) -> Layout {
        Layout {
            committed_lsn: max_u64(self.committed_lsn, upto),
            last_commit_block: max_u64(self.last_commit_block, lsn),
            ..self
        }
    }

    /// A record at `lsn` was seen.
    pub open spec fn seen(self, lsn: u64) -> Layout {
        Layout { applied_upto: max_u64(self.applied_upto, lsn), ..self }
    }

    /// The value of the put that `e` names now lives in segment `new`.
    pub open spec fn repoint(self, e: EntryModel, new: u64) -> Layout {
        Layout {
            index: match lookup(self.index, e.key) {
                Some(at) => if at.lsn == e.lsn {
                    put(
                        self.index,
                        e.key,
                        Location { seg: new, offset: e.offset, len: e.len, lsn: e.lsn },
                    )
                } else {
                    self.index
                },
                None => self.index,
            },
            puts: self.puts.insert(
                e.lsn,
                PutModel { key: e.key, seg: new, offset: e.offset, len: e.len },
            ),
            ..self
        }
    }

    /// All of `es` now live in segment `new`.
    pub open spec fn repoint_all(self, es: Seq<EntryModel>, new: u64) -> Layout
        decreases es.len(),
    {
        if es.len() == 0 {
            self
        } else {
            self.repoint_all(es.drop_last(), new).repoint(es.last(), new)
        }
    }

    /// Segment `new` takes the place of the sealed segment `old`.
    pub open spec fn replace(self, old: u64, new: u64) -> Layout {
        Layout { sealed: without(self.sealed, old).push(new), ..self }
    }

    /// The puts in `gone` are forgotten.
    pub open spec fn forget(self, gone: Set<u64>) -> Layout {
        Layout { puts: self.puts.remove_keys(gone), ..self }
    }

    /// The effect of one record on its own, leaving out the replacement of
    /// segments.
    pub open spec fn step(self, l: Logged) -> Layout {
        let s = self.seen(l.0);
        match l.1 {
            RecordModel::Put { key, len, .. } => s.put(key, len, l.0),
            RecordModel::SegmentSeal { segment_id, next_segment_id } => s.seal(
                segment_id,
                next_segment_id,
            ),
            RecordModel::Commit { lsn } => s.commit(lsn, l.0),
            _ => s,
        }
    }
}

/// The records of `log`, one after the other.
pub open spec fn played(log: Seq<Logged>) -> Layout
    decreases log.len(),
{
    if log.len() == 0 {
        Layout::empty()
    } else {
        played(log.drop_last()).step(log.last())
    }
}

/// The replacements of segments that `log` holds, old and new.
pub open spec fn swaps(log: Seq<Logged>) -> Seq<(u64, u64)>
    decreases log.len(),
{
    if log.len() == 0 {
        Seq::empty()
    } else {
        let rest = swaps(log.drop_last());
        match log.last().1 {
            RecordModel::SegmentSwap { old_segment_id, new_segment_id } => rest.push(
                (old_segment_id, new_segment_id),
            ),
            _ => rest,
        }
    }
}

/// What `log` says to have been moved to segment `new`.
pub open spec fn moved(log: Seq<Logged>, new: u64) -> Seq<EntryModel>
    decreases log.len(),
{
    if log.len() == 0 {
        Seq::empty()
    } else {
        let rest = moved(log.drop_last(), new);
        match log.last().1 {
            RecordModel::SegmentRemap { new_segment_id, entries } => if new_segment_id == new {
                rest + entries
            } else {
                rest
            },
            _ => rest,
        }
    }
}

/// `l` after the replacements `pairs`, whose entries `log` gives.
pub open spec fn replaced(l: Layout, log: Seq<Logged>, pairs: Seq<(u64, u64)>) -> Layout
    decreases pairs.len(),
{
    if pairs.len() == 0 {
        l
    } else {
        let (old, new) = pairs.last();
        replaced(l, log, pairs.drop_last()).repoint_all(moved(log, new), new).replace(old, new)
    }
}

/// The layout that `log` leads to.
pub open spec fn recovered(log: Seq<Logged>) -> Layout {
    replaced(played(log), log, swaps(log))
}

/// The length of each segment, after the records of `log` without
/// replacements.
pub open spec fn played_lengths(log: Seq<Logged>) -> Map<u64, u64>
    decreases log.len(),
{
    if log.len() == 0 {
        Map::empty()
    } else {
        let rest = played_lengths(log.drop_last());
        let l = played(log.drop_last());
        match log.last().1 {
            RecordModel::Put { len, .. } => rest.insert(l.active_id, (l.active_offset + len) as u64),
            RecordModel::SegmentSeal { segment_id, .. } => rest.insert(segment_id, l.active_offset),
            _ => rest,
        }
    }
}

/// The end of the last entry.
pub open spec fn entries_end(es: Seq<EntryModel>) -> u64
    decreases es.len(),
{
    if es.len() == 0 {
        0
    } else {
        max_u64(entries_end(es.drop_last()), (es.last().offset + es.last().len) as u64)
    }
}

pub open spec fn replaced_lengths(
    lens: Map<u64, u64>,
    log: Seq<Logged>,
    pairs: Seq<(u64, u64)>,
) -> Map<u64, u64>
    decreases pairs.len(),
{
    if pairs.len() == 0 {
        lens
    } else {
        let (old, new) = pairs.last();
        replaced_lengths(lens, log, pairs.drop_last()).insert(
            new,
            entries_end(moved(log, new)),
        ).insert(old, 0)
    }
}

/// The committed length of each segment that `log` speaks of. Bytes beyond it
/// were never committed.
pub open spec fn committed_lengths(log: Seq<Logged>) -> Map<u64, u64> {
    let l = played(log);
    let lens = played_lengths(log);
    let all = if lens.contains_key(l.active_id) {
        lens
    } else {
        lens.insert(l.active_id, l.active_offset)
    };
    replaced_lengths(all, log, swaps(log))
}

/// How many bytes the puts of `log` hold in all.
pub open spec fn put_bytes(log: Seq<Logged>) -> nat
    decreases log.len(),
{
    if log.len() == 0 {
        0
    } else {
        put_bytes(log.drop_last()) + match log.last().1 {
            RecordModel::Put { len, .. } => len as nat,
            _ => 0,
        }
    }
}

/// Segment numbers and ends of entries are in range.
pub open spec fn record_in_range(rec: RecordModel) -> bool {
    match rec {
        RecordModel::SegmentSeal { segment_id, next_segment_id } => segment_id < u64::MAX
            && next_segment_id < u64::MAX,
        RecordModel::SegmentSwap { old_segment_id, new_segment_id } => old_segment_id < u64::MAX
            && new_segment_id < u64::MAX,
        RecordModel::SegmentRemap { entries, .. } => forall|i: int|
            0 <= i < entries.len() ==> (#[trigger] entries[i]).offset + entries[i].len <= u64::MAX,
        _ => true,
    }
}

/// Replaying `log` stays within 64 bits.
pub open spec fn replayable(log: Seq<Logged>) -> bool {
    &&& put_bytes(log) <= u64::MAX
    &&& log.len() < u64::MAX
    &&& forall|i: int| 0 <= i < log.len() ==> record_in_range((#[trigger] log[i]).1)
}

/// What replaying keeps in bounds.
pub proof fn lemma_played_bounds(log: Seq<Logged>)
    requires
        put_bytes(log) <= u64::MAX,
    ensures
        played(log).active_offset <= put_bytes(log),
        byte_count(played(log).live, Seq::empty()) <= put_bytes(log),
        played(log).live.len() <= log.len(),
        distinct(played(log).live),
        distinct(played(log).index),
    decreases log.len(),
{
    if log.len() > 0 {
        lemma_played_bounds(log.drop_last());
        let l = played(log.drop_last());
        match log.last().1 {
            RecordModel::Put { key, len, .. } => {
                lemma_recount_put(l.live, key, len as u64, Seq::empty());
                lemma_put(l.live, key, len as u64, key);
                lemma_put(
                    l.index,
                    key,
                    Location { seg: l.active_id, offset: l.active_offset, len, lsn: log.last().0 },
                    key,
                );
                lemma_slot(l.live, key);
            },
            _ => {},
        }
    }
}

/// A longer log holds at least as many bytes.
pub proof fn lemma_put_bytes_prefix(log: Seq<Logged>, i: int)
    requires
        0 <= i <= log.len(),
    ensures
        put_bytes(log.take(i)) <= put_bytes(log),
    decreases log.len(),
{
    if i < log.len() {
        lemma_put_bytes_prefix(log.drop_last(), i);
        assert(log.drop_last().take(i) =~= log.take(i));
    } else {
        assert(log.take(i) =~= log);
    }
}

} // verus!
