//! The state of a store and what each operation makes of it.

use vstd::prelude::*;

use crate::error::ErrorModel;
use crate::layout::{max_u64, Layout, Location, PutModel};
use crate::segment::seg_file;
use crate::rollup::{byte_count, prefixes, DeltaModel};
use crate::table::{lookup, Rows};
use crate::text::digits;
use crate::visible::{caught_up, lengths_of, visible};
use crate::wal::{encodable, EntryModel, Logged, RecordModel, WalModel};

verus! {

/// A replacement of a segment that waits for the next sync: the temporary
/// file, and the values moved into it.
#[verifier::ext_equal]
pub ghost struct SwapModel<F> {
    pub old: u64,
    pub new: u64,
    pub file: F,
    pub entries: Seq<EntryModel>,
}

/// Why a value cannot be moved to another segment.
#[derive(Debug, Clone, Copy, PartialEq, Eq)]
pub enum MoveError {
    /// There is no put at its LSN.
    Missing,
    /// The put at its LSN is elsewhere or of another length.
    Mismatch,
    /// The segment that it is in is not open.
    NotOpen,
}

/// The error that a value at `lsn` that cannot be moved gives.
pub open spec fn move_failure(why: MoveError, lsn: u64) -> ErrorModel {
    match why {
        MoveError::Missing => ErrorModel::Corrupt(
            "remap source missing for lsn "@ + digits(lsn as nat),
        ),
        MoveError::Mismatch => ErrorModel::Corrupt("remap source mismatch"@),
        MoveError::NotOpen => ErrorModel::Corrupt("segment not open"@),
    }
}

/// The state of a store. `F` is a handle to an open file, about which the
/// store knows nothing.
#[verifier::ext_equal]
#[verifier::reject_recursive_types(F)]
pub ghost struct State<F> {
    /// The length that a segment is not to exceed.
    pub max: u64,
    pub layout: Layout,
    pub wal: WalModel,
    /// The segments whose files are open.
    pub open: Map<u64, F>,
    /// Something may wait for a commit.
    pub pending: bool,
    /// The segments written to since the last sync.
    pub dirty: Set<u64>,
    /// The number of the next new segment.
    pub next_free_id: u64,
    pub swap: Option<SwapModel<F>>,
    /// The block of the last commit that is known to be durable.
    pub durable_commit: u64,
}

/// What readers see of a store: of each key the newest value that is
/// committed.
#[verifier::ext_equal]
#[verifier::reject_recursive_types(F)]
pub ghost struct Published<F> {
    pub committed: u64,
    pub index: Rows<Location>,
    pub files: Map<u64, F>,
    pub puts: Map<u64, PutModel>,
    pub live: Rows<u64>,
}

/// Where bytes are to be read: the file, the offset and the length.
pub type Place<F> = (F, u64, u32);

impl<F> Published<F> {
    /// Where the bytes at `offset` of segment `seg` are to be read.
    pub open spec fn place(self, seg: u64, offset: u64, len: u32) -> Result<Place<F>, ErrorModel> {
        if self.files.contains_key(seg) {
            Ok((self.files[seg], offset, len))
        } else {
            Err(ErrorModel::Corrupt("segment "@ + seg_file(seg) + " not open"@))
        }
    }

    /// Where the value of `key` is to be read, if it was put at or below
    /// `upto`.
    pub open spec fn read_upto(self, key: Seq<char>, upto: u64) -> Result<
        Option<Place<F>>,
        ErrorModel,
    > {
        match lookup(self.index, key) {
            Some(at) => if at.lsn > upto {
                Ok(None)
            } else {
                match self.place(at.seg, at.offset, at.len) {
                    Ok(p) => Ok(Some(p)),
                    Err(e) => Err(e),
                }
            },
            None => Ok(None),
        }
    }

    /// Where the value of `key` is to be read.
    pub open spec fn read(self, key: Seq<char>) -> Result<Option<Place<F>>, ErrorModel> {
        self.read_upto(key, u64::MAX)
    }

    /// Where the value that the put at `lsn` wrote is to be read.
    pub open spec fn read_put(self, lsn: u64) -> Result<Place<F>, ErrorModel> {
        if self.puts.contains_key(lsn) {
            let p = self.puts[lsn];
            self.place(p.seg, p.offset, p.len)
        } else {
            Err(ErrorModel::Corrupt("no put at lsn "@ + digits(lsn as nat)))
        }
    }

    /// `l` is a committed key with the length of its value.
    pub open spec fn lists(self, l: (Seq<char>, u32)) -> bool {
        lookup(self.index, l.0) matches Some(at) && at.lsn <= self.committed && at.len == l.1
    }
}

/// The deltas logged with a put.
pub open spec fn put_deltas(key: Seq<char>, len: u64) -> Seq<DeltaModel> {
    prefixes(key).map_values(
        |p: Seq<char>| DeltaModel { prefix: p, object_count_delta: 1, byte_count_delta: len },
    )
}

pub open spec fn put_record(key: Seq<char>, len: u32, lsn: u64) -> RecordModel {
    RecordModel::Put { key, len, stripe_id: lsn }
}

pub open spec fn agg_record(key: Seq<char>, len: u32) -> RecordModel {
    RecordModel::AggDelta { deltas: put_deltas(key, len as u64) }
}

impl<F> State<F> {
    /// `rec` is appended to the log at `lsn`.
    pub open spec fn logged(self, rec: RecordModel, lsn: u64) -> State<F> {
        State { wal: self.wal.appended(rec, lsn), pending: true, ..self }
    }

    /// Commits count as applied, and the last one that is known to be durable
    /// is not ahead of the last one.
    pub open spec fn commits_applied(self) -> bool {
        self.durable_commit <= self.layout.last_commit_block <= self.layout.applied_upto
    }

    /// What readers are to see of this state.
    pub open spec fn snapshot(self) -> Published<F> {
        let l = self.layout;
        let index = visible(l.index, l.puts, l.committed_lsn);
        Published {
            committed: l.committed_lsn,
            index,
            files: self.open,
            puts: l.puts,
            live: lengths_of(index),
        }
    }

    /// The record that seals the active segment.
    pub open spec fn seal_record(self) -> RecordModel {
        RecordModel::SegmentSeal {
            segment_id: self.layout.active_id,
            next_segment_id: self.next_free_id,
        }
    }

    /// The active segment is sealed and a new one takes its place.
    pub open spec fn seal_active(self) -> State<F> {
        State {
            layout: self.layout.seal(self.layout.active_id, self.next_free_id),
            next_free_id: (self.next_free_id + 1) as u64,
            ..self.logged(self.seal_record(), self.wal.next_lsn)
        }
    }

    /// A put of `len` bytes would make the active segment too long.
    pub open spec fn seal_due(self, len: nat) -> bool {
        self.layout.active_offset > 0 && self.layout.active_offset + len > self.max
    }

    /// Room for a put of `len` bytes in the active segment.
    pub open spec fn before_put(self, len: nat) -> State<F> {
        if self.seal_due(len) {
            self.seal_active()
        } else {
            self
        }
    }

    /// The segment and the offset at which the value of the next put is to be
    /// written, if it has `len` bytes.
    pub open spec fn place_for(self, len: nat) -> (u64, u64) {
        let s = self.before_put(len);
        (s.layout.active_id, s.layout.active_offset)
    }

    /// The segment and the offset at which the value of the leader's next put
    /// is to be written.
    pub open spec fn place_for_applied(self) -> (u64, u64) {
        (self.layout.active_id, self.layout.active_offset)
    }

    /// The last LSN that was given out.
    pub open spec fn last_lsn(self) -> u64 {
        (self.wal.next_lsn - 1) as u64
    }

    /// The active segment's file is open from now on, if `opened` gives it.
    pub open spec fn with_active(self, opened: Option<F>) -> State<F> {
        if self.open.contains_key(self.layout.active_id) {
            self
        } else {
            match opened {
                Some(h) => State { open: self.open.insert(self.layout.active_id, h), ..self },
                None => self,
            }
        }
    }

    pub open spec fn active_open(self) -> bool {
        self.open.contains_key(self.layout.active_id)
    }

    /// The records of a put of `len` bytes fit in their blocks.
    pub open spec fn put_fits(self, key: Seq<char>, len: u32) -> bool {
        encodable(put_record(key, len, self.wal.next_lsn)) && encodable(agg_record(key, len))
    }

    /// The value is in its place and the put is logged. An object longer than
    /// a segment is to be gets a segment of its own.
    pub open spec fn staged(self, key: Seq<char>, len: u32) -> State<F> {
        let lsn = self.wal.next_lsn;
        let s = State {
            layout: self.layout.put(key, len, lsn),
            dirty: self.dirty.insert(self.layout.active_id),
            ..self.logged(put_record(key, len, lsn), lsn).logged(
                agg_record(key, len),
                (lsn + 1) as u64,
            )
        };
        if len > self.max {
            s.seal_active()
        } else {
            s
        }
    }

    /// Numbers stay within 64 bits through a put of `len` bytes.
    pub open spec fn has_room(self, len: nat) -> bool {
        &&& self.layout.active_offset + len <= u64::MAX
        &&& self.wal.next_lsn + 4 <= u64::MAX
        &&& self.next_free_id + 2 <= u64::MAX
        &&& self.layout.live.len() < u64::MAX
        &&& byte_count(self.layout.live, Seq::empty()) + len <= u64::MAX
    }

    /// All of `recs` are appended to the log, one LSN after the other.
    pub open spec fn logged_all(self, recs: Seq<RecordModel>) -> State<F>
        decreases recs.len(),
    {
        if recs.len() == 0 {
            self
        } else {
            let s = self.logged_all(recs.drop_last());
            s.logged(recs.last(), s.wal.next_lsn)
        }
    }

    /// Segment `new`, whose file is `file`, takes the place of `old`: `es`
    /// have moved into it, and the puts in `gone` are forgotten.
    pub open spec fn compacted(
        self,
        old: u64,
        new: u64,
        file: F,
        es: Seq<EntryModel>,
        gone: Set<u64>,
    ) -> State<F> {
        State {
            layout: self.layout.repoint_all(es, new).forget(gone).replace(old, new),
            open: self.open.remove(old).insert(new, file),
            ..self
        }
    }

    /// The records appended since `before`.
    pub open spec fn appended_since(self, before: State<F>) -> Seq<Logged> {
        self.wal.buffered.skip(before.wal.buffered.len() as int)
    }

    /// The record of a commit of everything up to `upto` is in the log.
    pub open spec fn commit_logged(self, upto: u64) -> State<F> {
        self.logged(RecordModel::Commit { lsn: upto }, self.wal.next_lsn)
    }

    /// The commit of everything up to `upto` is durable.
    pub open spec fn committed(self, upto: u64) -> State<F> {
        let block = self.wal.next_lsn;
        State {
            layout: self.layout.commit(upto, block).seen(block),
            wal: self.commit_logged(upto).wal.synced(),
            pending: !caught_up(self.layout.commit(upto, block).seen(block)),
            dirty: Set::empty(),
            durable_commit: max_u64(self.layout.last_commit_block, block),
            ..self
        }
    }

    /// The log is durable as far as it goes.
    pub open spec fn wal_synced(self) -> State<F> {
        State {
            wal: self.wal.synced(),
            durable_commit: self.layout.last_commit_block,
            ..self
        }
    }

    /// The waiting replacement takes effect; `file` is the new segment.
    pub open spec fn swap_finished(self, file: F) -> State<F> {
        match self.swap {
            Some(w) => State {
                layout: self.layout.repoint_all(w.entries, w.new).replace(w.old, w.new),
                open: self.open.remove(w.old).insert(w.new, file),
                swap: None,
                ..self
            },
            None => self,
        }
    }

    /// Everything written so far is durable.
    pub open spec fn all_synced(self) -> State<F> {
        State {
            wal: if self.wal.buffered.len() > 0 {
                self.wal.synced()
            } else {
                self.wal
            },
            dirty: Set::empty(),
            durable_commit: self.layout.last_commit_block,
            ..self
        }
    }

    pub open spec fn seen(self, lsn: u64) -> State<F> {
        State { layout: self.layout.seen(lsn), ..self }
    }

    /// Why a replicated value cannot be moved out of segment `old`, if it
    /// cannot.
    pub open spec fn move_error(self, old: u64, e: EntryModel) -> Option<MoveError> {
        if !self.layout.puts.contains_key(e.lsn) {
            Some(MoveError::Missing)
        } else if self.layout.puts[e.lsn].seg != old || self.layout.puts[e.lsn].len != e.len {
            Some(MoveError::Mismatch)
        } else if !self.open.contains_key(old) {
            Some(MoveError::NotOpen)
        } else {
            None
        }
    }

    /// How many of the entries, from the first on, can be moved out of
    /// segment `old`.
    pub open spec fn movable(self, old: u64, es: Seq<EntryModel>) -> nat
        decreases es.len(),
    {
        if es.len() == 0 {
            0
        } else {
            let n = self.movable(old, es.drop_last());
            if n == es.len() - 1 && self.move_error(old, es.last()) is None {
                es.len()
            } else {
                n
            }
        }
    }
}

} // verus!
