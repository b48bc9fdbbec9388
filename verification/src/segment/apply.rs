//! Replication: applying a leader's records at explicit LSNs.

use std::sync::Arc;

use vstd::prelude::*;
use vstd::string::*;

use crate::error::{ErrorModel, StoreError};
use crate::layout::max_u64;
use crate::rollup::{byte_count, lemma_recount_put};
use crate::state::{move_failure, MoveError, State, SwapModel};
use crate::text::{decimal, digits};
use crate::wal::{
    encodable, encode_record, entry_models, lemma_fixed_encodable, EntryModel, Lsn, Record,
    RecordModel, RemapEntry,
};

use super::{handle, Inner, PendingSwap, SegmentIo, Store};

verus! {

/// A value to be copied into the temporary file of a waiting replacement.
pub struct MoveValue<F> {
    pub from: Arc<F>,
    pub offset: u64,
    pub len: u32,
    pub to: u64,
}

/// The file operations that a record calls for.
pub enum ApplyIo<F> {
    /// None.
    Nothing,
    /// Write the value at this place.
    Write { segment: u64, offset: u64, file: Option<Arc<F>> },
    /// Create the temporary file of this segment.
    Create { segment: u64 },
    /// Copy these values into the temporary file.
    Copy { values: Vec<MoveValue<F>> },
}

/// Why copying values into a temporary file ended early.
pub struct CopyFailure {
    pub error: StoreError,
    /// The file took no more bytes: the replacement goes on waiting.
    pub full: bool,
}

/// How the file operations of a record went.
pub enum ApplyDone<F> {
    Nothing,
    Wrote(SegmentIo<F>),
    Created(Result<F, StoreError>),
    /// How many values were copied, and why not all of them.
    Copied(usize, Option<CopyFailure>),
}

/// The kind of file operation that a record calls for, and for how many
/// values.
pub ghost enum IoKind {
    Nothing,
    Write,
    Create,
    Copy(nat),
}

impl<F> State<F> {
    /// The file operations that `rec` calls for.
    pub open spec fn io_kind(self, rec: RecordModel, data: Option<Seq<u8>>) -> IoKind {
        match rec {
            RecordModel::Put { len, .. } => if data matches Some(d) && d.len() == len {
                IoKind::Write
            } else {
                IoKind::Nothing
            },
            RecordModel::SegmentSwap { .. } => if self.swap is None {
                IoKind::Create
            } else {
                IoKind::Nothing
            },
            RecordModel::SegmentRemap { new_segment_id, entries } => match self.swap {
                Some(w) => if encodable(rec) && w.new == new_segment_id {
                    IoKind::Copy(self.movable(w.old, entries))
                } else {
                    IoKind::Nothing
                },
                None => IoKind::Nothing,
            },
            _ => IoKind::Nothing,
        }
    }

    /// `rec` can be applied at `lsn` within 64 bits.
    pub open spec fn can_apply(self, lsn: u64, rec: RecordModel) -> bool {
        &&& lsn < u64::MAX
        &&& match rec {
            RecordModel::Put { len, .. } => {
                &&& self.layout.active_offset + len <= u64::MAX
                &&& self.layout.live.len() < u64::MAX
                &&& byte_count(self.layout.live, Seq::empty()) + len <= u64::MAX
            },
            RecordModel::SegmentSeal { next_segment_id, .. } => next_segment_id < u64::MAX,
            _ => true,
        }
    }

    /// The waiting replacement has `es` more entries.
    pub open spec fn swap_extended(self, es: Seq<EntryModel>) -> State<F> {
        match self.swap {
            Some(w) => State { swap: Some(SwapModel { entries: w.entries + es, ..w }), ..self },
            None => self,
        }
    }

    /// A put of the leader took effect.
    pub open spec fn put_applied(self, key: Seq<char>, len: u32, lsn: u64, rec: RecordModel) -> State<
        F,
    > {
        State {
            layout: self.layout.put(key, len, lsn),
            dirty: self.dirty.insert(self.layout.active_id),
            ..self.logged(rec, lsn)
        }
    }

    /// A seal of the leader took effect.
    pub open spec fn seal_applied(self, next: u64, lsn: u64, rec: RecordModel) -> State<F> {
        State {
            layout: self.layout.seal(self.layout.active_id, next),
            next_free_id: max_u64(self.next_free_id, (next + 1) as u64),
            ..self.logged(rec, lsn)
        }
    }
}

/// `io` tells of operations of kind `kind`.
pub open spec fn done_as<F>(kind: IoKind, io: ApplyDone<F>) -> bool {
    match (kind, io) {
        (IoKind::Nothing, ApplyDone::Nothing) => true,
        (IoKind::Write, ApplyDone::Wrote(_)) => true,
        (IoKind::Create, ApplyDone::Created(_)) => true,
        (IoKind::Copy(n), ApplyDone::Copied(count, failure)) => count <= n && (count < n
            <==> failure is Some),
        _ => false,
    }
}

/// `res` is the error `e`.
pub open spec fn fails(res: Result<(), StoreError>, e: ErrorModel) -> bool {
    res matches Err(err) && err@ == e
}

/// The outcome of applying a put.
pub open spec fn put_applies<F>(
    s: State<F>,
    lsn: u64,
    rec: RecordModel,
    data: Option<Seq<u8>>,
    io: ApplyDone<F>,
    after: State<F>,
    res: Result<(), StoreError>,
) -> bool {
    let key = rec->Put_key;
    let len = rec->Put_len;
    match data {
        None => after == s && fails(res, ErrorModel::Corrupt("Put record without value data"@)),
        Some(d) => if d.len() != len {
            after == s && fails(res, ErrorModel::Corrupt("Put value length mismatch"@))
        } else {
            let wrote = io->Wrote_0;
            let ready = s.with_active(handle(wrote.opened));
            if wrote.result is Err {
                after == ready && res == wrote.result
            } else if !ready.active_open() {
                after == ready && fails(res, ErrorModel::Corrupt("active segment not open"@))
            } else if !encodable(rec) {
                after == ready && fails(res, ErrorModel::RecordTooLarge)
            } else {
                after == ready.put_applied(key, len, lsn, rec).seen(lsn) && res is Ok
            }
        },
    }
}

/// The outcome of applying a remap.
pub open spec fn remap_applies<F>(
    s: State<F>,
    lsn: u64,
    rec: RecordModel,
    io: ApplyDone<F>,
    after: State<F>,
    res: Result<(), StoreError>,
) -> bool {
    let es = rec->SegmentRemap_entries;
    let logged = State { wal: s.wal.appended(rec, lsn), ..s };
    if !encodable(rec) {
        after == s && fails(res, ErrorModel::RecordTooLarge)
    } else {
        match s.swap {
            None => after == logged && fails(res, ErrorModel::Corrupt("remap without swap"@)),
            Some(w) => if w.new != rec->SegmentRemap_new_segment_id {
                after == logged && fails(res, ErrorModel::Corrupt("remap target mismatch"@))
            } else {
                let n = s.movable(w.old, es);
                match io->Copied_1 {
                    Some(f) => {
                        &&& res == Err::<(), StoreError>(f.error)
                        &&& after == (if f.full {
                            logged.swap_extended(es.take(io->Copied_0 as int))
                        } else {
                            State { swap: None, ..logged }
                        })
                    },
                    None => if n == es.len() {
                        &&& res is Ok
                        &&& after == (State { pending: true, ..logged.swap_extended(es) }).seen(
                            lsn,
                        )
                    } else {
                        let why = s.move_error(w.old, es[n as int]).unwrap();
                        &&& fails(res, move_failure(why, es[n as int].lsn))
                        &&& after == (if why is Mismatch {
                            logged.swap_extended(es.take(n as int))
                        } else {
                            State { swap: None, ..logged }
                        })
                    },
                }
            },
        }
    }
}

/// The outcome of applying a leader's record: the state after it and the
/// result. A record that is refused does not count as applied.
pub open spec fn applies<F>(
    before: State<F>,
    lsn: u64,
    rec: RecordModel,
    data: Option<Seq<u8>>,
    io: ApplyDone<F>,
    after: State<F>,
    res: Result<(), StoreError>,
) -> bool {
    let s = before;
    match rec {
        RecordModel::Put { .. } => put_applies(s, lsn, rec, data, io, after, res),
        RecordModel::SegmentSeal { segment_id, next_segment_id } => if segment_id
            != s.layout.active_id {
            after == s && fails(
                res,
                ErrorModel::Corrupt(
                    "seal for segment "@ + digits(segment_id as nat)
                        + " but follower active segment is "@ + digits(s.layout.active_id as nat),
                ),
            )
        } else {
            after == s.seal_applied(next_segment_id, lsn, rec).seen(lsn) && res is Ok
        },
        RecordModel::AggDelta { .. } => if encodable(rec) {
            after == s.logged(rec, lsn).seen(lsn) && res is Ok
        } else {
            after == s && fails(res, ErrorModel::RecordTooLarge)
        },
        RecordModel::SegmentSwap { old_segment_id, new_segment_id } => if s.swap is Some {
            after == s && fails(res, ErrorModel::Corrupt("overlapping segment swap"@))
        } else {
            match io->Created_0 {
                Ok(file) => res is Ok && after == (State {
                    swap: Some(
                        SwapModel {
                            old: old_segment_id,
                            new: new_segment_id,
                            file,
                            entries: Seq::empty(),
                        },
                    ),
                    ..s.logged(rec, lsn).seen(lsn)
                }),
                Err(e) => after == s && res == Err::<(), StoreError>(e),
            }
        },
        RecordModel::SegmentRemap { .. } => remap_applies(s, lsn, rec, io, after, res),
        RecordModel::Commit { lsn: upto } => {
            &&& res is Ok
            &&& after == (State {
                layout: s.layout.commit(upto, lsn).seen(lsn),
                ..s.logged(rec, lsn)
            })
        },
    }
}

proof fn lemma_movable<F>(s: State<F>, old: u64, es: Seq<EntryModel>, i: int)
    requires
        0 <= i <= es.len(),
        s.movable(old, es.take(i)) == i,
        i < es.len() ==> s.move_error(old, es[i]) is Some,
    ensures
        s.movable(old, es) == i,
    decreases es.len(),
{
    if i == es.len() {
        assert(es.take(i) =~= es);
    } else {
        let front = es.drop_last();
        assert(front.take(i) =~= es.take(i));
        if i < front.len() {
            assert(front[i] == es[i]);
        }
        lemma_movable(s, old, front, i);
        lemma_movable_bound(s, old, front);
    }
}

proof fn lemma_movable_bound<F>(s: State<F>, old: u64, es: Seq<EntryModel>)
    ensures
        s.movable(old, es) <= es.len(),
    decreases es.len(),
{
    if es.len() > 0 {
        lemma_movable_bound(s, old, es.drop_last());
    }
}

impl<F> Inner<F> {
    /// Why a value cannot be moved out of segment `old_id`, if it cannot.
    fn move_error(&self, old_id: u64, e: &RemapEntry) -> (err: Option<MoveError>)
        ensures
            err == self.state().move_error(old_id, e@),
    {
        match self.put_locations.get(&e.lsn) {
            Some(p) => {
                assert(self.layout().puts[e.lsn] == p@);
                if p.seg != old_id || p.len != e.len {
                    Some(MoveError::Mismatch)
                } else if !self.segments.contains_key(&old_id) {
                    Some(MoveError::NotOpen)
                } else {
                    None
                }
            },
            None => Some(MoveError::Missing),
        }
    }
}

fn move_failed(why: MoveError, lsn: Lsn) -> (e: StoreError)
    ensures
        e@ == move_failure(why, lsn),
{
    match why {
        MoveError::Missing => {
            let mut msg = "remap source missing for lsn ".to_string();
            msg.append(decimal(lsn).as_str());
            StoreError::Corrupt(msg)
        },
        MoveError::Mismatch => StoreError::Corrupt("remap source mismatch".to_string()),
        MoveError::NotOpen => StoreError::Corrupt("segment not open".to_string()),
    }
}

impl<F> Store<F> {
    /// Whether `rec` can be applied at `lsn` with all numbers within 64 bits.
    pub fn can_apply(&self, lsn: Lsn, rec: &Record) -> (ok: bool)
        requires
            self.wf(),
        ensures
            ok == self.state().can_apply(lsn, rec@),
    {
        if lsn == u64::MAX {
            return false;
        }
        match rec {
            Record::Put { len, .. } => {
                proof {
                    reveal_strlit("");
                    assert(""@ =~= Seq::<char>::empty());
                }
                let root = self.inner.rollup.get("");
                let live: usize = self.inner.rollup.object_total();
                let n: u64 = *len as u64;
                self.inner.active_offset <= u64::MAX - n && (live as u64) < u64::MAX
                    && root.byte_count <= u64::MAX - n
            },
            Record::SegmentSeal { next_segment_id, .. } => *next_segment_id < u64::MAX,
            _ => true,
        }
    }

    /// The file operations that a record calls for before it is applied.
    pub fn apply_io(&self, rec: &Record, data: Option<&[u8]>) -> (io: ApplyIo<F>)
        requires
            self.wf(),
        ensures
            ({
                let s = self.state();
                let bytes = match data {
                    Some(d) => Some(d@),
                    None => None,
                };
                match (s.io_kind(rec@, bytes), io) {
                    (IoKind::Nothing, ApplyIo::Nothing) => true,
                    (IoKind::Write, ApplyIo::Write { segment, offset, file }) => {
                        &&& (segment, offset) == s.place_for_applied()
                        &&& handle(file) == (if s.active_open() {
                            Some(s.open[s.layout.active_id])
                        } else {
                            None
                        })
                    },
                    (IoKind::Create, ApplyIo::Create { segment }) => segment
                        == rec@->SegmentSwap_new_segment_id,
                    (IoKind::Copy(n), ApplyIo::Copy { values }) => values@.len() == n
                        && moves_values(s, rec@->SegmentRemap_entries, values@),
                    _ => false,
                }
            }),
    {
        match rec {
            Record::Put { len, .. } => match data {
                Some(d) => {
                    if d.len() != *len as usize {
                        return ApplyIo::Nothing;
                    }
                    ApplyIo::Write {
                        segment: self.inner.active_id,
                        offset: self.inner.active_offset,
                        file: self.inner.file_of(self.inner.active_id),
                    }
                },
                None => ApplyIo::Nothing,
            },
            Record::SegmentSwap { new_segment_id, .. } => {
                if self.inner.pending_swap.is_some() {
                    return ApplyIo::Nothing;
                }
                ApplyIo::Create { segment: *new_segment_id }
            },
            Record::SegmentRemap { new_segment_id, entries } => match &self.inner.pending_swap {
                Some(swap) => {
                    if swap.new != *new_segment_id || encode_record(rec).is_err() {
                        return ApplyIo::Nothing;
                    }
                    ApplyIo::Copy { values: self.inner.values_to_move(swap, entries) }
                },
                None => ApplyIo::Nothing,
            },
            _ => ApplyIo::Nothing,
        }
    }
}

/// `v` is the value of `e`, to be copied into the temporary file.
pub open spec fn moves_value<F>(s: State<F>, e: EntryModel, v: MoveValue<F>) -> bool {
    let p = s.layout.puts[e.lsn];
    s.open.contains_key(p.seg) && *v.from == s.open[p.seg] && v.offset == p.offset && v.len == p.len
        && v.to == e.offset
}

/// `values` are those of the first entries.
pub open spec fn moves_values<F>(
    s: State<F>,
    es: Seq<EntryModel>,
    values: Seq<MoveValue<F>>,
) -> bool {
    &&& values.len() <= es.len()
    &&& forall|i: int| 0 <= i < values.len() ==> moves_value(s, es[i], #[trigger] values[i])
}

impl<F> Inner<F> {
    spec fn swap_model(w: PendingSwap<F>) -> SwapModel<F> {
        SwapModel { old: w.old, new: w.new, file: w.file, entries: entry_models(w.entries@) }
    }

    /// The values of the entries, from the first on, that can be moved.
    fn values_to_move(&self, swap: &PendingSwap<F>, entries: &Vec<RemapEntry>) -> (values: Vec<
        MoveValue<F>,
    >)
        requires
            self.wf(),
        ensures
            values@.len() == self.state().movable(swap.old, entry_models(entries@)),
            moves_values(self.state(), entry_models(entries@), values@),
    {
        let ghost s = self.state();
        let ghost es = entry_models(entries@);
        let mut values: Vec<MoveValue<F>> = Vec::new();
        assert(es.take(0) =~= Seq::<EntryModel>::empty());
        for i in 0..entries.len()
            invariant
                s == self.state(),
                es == entry_models(entries@),
                values@.len() == i,
                s.movable(swap.old, es.take(i as int)) == i,
                forall|j: int|
                    0 <= j < i ==> moves_value(s, es[j], #[trigger] values@[j]),
        {
            let e = &entries[i];
            assert(es[i as int] == e@);
            if let Some(_) = self.move_error(swap.old, e) {
                proof {
                    assert(s.move_error(swap.old, es[i as int]) is Some);
                    lemma_movable(s, swap.old, es, i as int);
                }
                return values;
            }
            assert(s.move_error(swap.old, e@) is None);
            assert(es.take(i + 1).drop_last() =~= es.take(i as int));
            match (self.put_locations.get(&e.lsn), self.segments.get(&swap.old)) {
                (Some(p), Some(file)) => {
                    assert(s.layout.puts[e.lsn] == p@);
                    values.push(
                        MoveValue {
                            from: super::share(file),
                            offset: p.offset,
                            len: p.len,
                            to: e.offset,
                        },
                    );
                },
                _ => {
                    assert(false);
                },
            }
        }
        assert(es.take(es.len() as int) =~= es);
        values
    }
}

impl<F> Inner<F> {
    /// The record at `lsn` has been applied.
    fn see(&mut self, lsn: Lsn)
        requires
            old(self).wf(),
        ensures
            final(self).wf(),
            final(self).state() == old(self).state().seen(lsn),
    {
        if lsn > self.applied_upto {
            self.applied_upto = lsn;
        }
        assert(self.state() =~= old(self).state().seen(lsn));
    }

    /// Applies a put whose value has been written.
    fn apply_put(
        &mut self,
        lsn: Lsn,
        rec: &Record,
        data: Option<&[u8]>,
        io: ApplyDone<F>,
    ) -> (res: Result<(), StoreError>)
        requires
            old(self).wf(),
            rec is Put,
            old(self).state().can_apply(lsn, rec@),
            done_as(
                old(self).state().io_kind(
                    rec@,
                    match data {
                        Some(d) => Some(d@),
                        None => None,
                    },
                ),
                io,
            ),
        ensures
            final(self).wf(),
            put_applies(
                old(self).state(),
                lsn,
                rec@,
                match data {
                    Some(d) => Some(d@),
                    None => None,
                },
                io,
                final(self).state(),
                res,
            ),
    {
        if let Record::Put { key, len, .. } = rec {
            let data: &[u8] = match data {
                Some(d) => d,
                None => {
                    return Err(StoreError::Corrupt("Put record without value data".to_string()));
                },
            };
            if data.len() != *len as usize {
                return Err(StoreError::Corrupt("Put value length mismatch".to_string()));
            }
            if let ApplyDone::Wrote(wrote) = io {
                let open: bool = self.open_segment(wrote.opened);
                let ghost ready = self.state();
                wrote.result?;
                if !open {
                    return Err(StoreError::Corrupt("active segment not open".to_string()));
                }
                self.wal.append_at(rec, lsn)?;
                proof {
                    self.rollup.lemma_distinct();
                    lemma_recount_put(self.rollup@, key@, *len as u64, Seq::empty());
                }
                let active: u64 = self.active_id;
                self.place(key.as_str(), *len, lsn);
                self.dirty_segments.insert(active);
                self.pending = true;
                assert(self.state() =~= ready.put_applied(key@, *len, lsn, rec@));
                self.see(lsn);
            }
        }
        Ok(())
    }

    /// Applies a remap whose values have been copied as far as they could.
    fn apply_remap(&mut self, lsn: Lsn, rec: &Record, io: ApplyDone<F>) -> (res: Result<
        (),
        StoreError,
    >)
        requires
            old(self).wf(),
            rec is SegmentRemap,
            lsn < u64::MAX,
            done_as(old(self).state().io_kind(rec@, None), io),
        ensures
            final(self).wf(),
            remap_applies(old(self).state(), lsn, rec@, io, final(self).state(), res),
    {
        let ghost s = self.state();
        if let Record::SegmentRemap { new_segment_id, entries } = rec {
            let ghost es = entry_models(entries@);
            self.wal.append_at(rec, lsn)?;
            let ghost logged = self.state();
            assert(logged =~= State { wal: s.wal.appended(rec@, lsn), ..s });
            match self.pending_swap.take() {
                None => {
                    assert(self.state() =~= logged);
                    return Err(StoreError::Corrupt("remap without swap".to_string()));
                },
                Some(swap) => {
                    let mut swap = swap;
                    if swap.new != *new_segment_id {
                        self.pending_swap = Some(swap);
                        assert(self.state() =~= logged);
                        return Err(StoreError::Corrupt("remap target mismatch".to_string()));
                    }
                    let ghost w = Self::swap_model(swap);
                    let ghost n = s.movable(w.old, es);
                    proof {
                        lemma_movable_bound(s, w.old, es);
                    }
                    if let ApplyDone::Copied(count, failure) = io {
                        let ghost before = entry_models(swap.entries@);
                        for i in 0..count
                            invariant
                                es == entry_models(entries@),
                                count <= entries@.len(),
                                entry_models(swap.entries@) == before + es.take(i as int),
                                swap.old == w.old,
                                swap.new == w.new,
                                swap.file == w.file,
                        {
                            let e = entries[i].copy();
                            proof {
                                assert(es[i as int] == e@);
                                assert(entry_models(swap.entries@.push(e)) =~= entry_models(
                                    swap.entries@,
                                ).push(e@));
                                assert(es.take(i + 1) =~= es.take(i as int).push(e@));
                                assert((before + es.take(i as int)).push(e@) =~= before + es.take(
                                    i + 1,
                                ));
                            }
                            swap.entries.push(e);
                        }
                        match failure {
                            Some(f) => {
                                if f.full {
                                    self.pending_swap = Some(swap);
                                    assert(self.state() =~= logged.swap_extended(
                                        es.take(count as int),
                                    ));
                                } else {
                                    assert(self.state() =~= (State { swap: None, ..logged }));
                                }
                                return Err(f.error);
                            },
                            None => {},
                        }
                        assert(count == n);
                        if count < entries.len() {
                            let e = &entries[count];
                            assert(es[count as int] == e@);
                            match self.move_error(swap.old, e) {
                                Some(why) => {
                                    proof {
                                        assert(s.move_error(w.old, es[n as int]) == Some(why));
                                    }
                                    if let MoveError::Mismatch = why {
                                        self.pending_swap = Some(swap);
                                        assert(self.state() =~= logged.swap_extended(
                                            es.take(count as int),
                                        ));
                                    } else {
                                        assert(self.state() =~= (State { swap: None, ..logged }));
                                    }
                                    return Err(move_failed(why, e.lsn));
                                },
                                None => {
                                    proof {
                                        lemma_movable_stops(s, w.old, es);
                                        assert(false);
                                    }
                                },
                            }
                        }
                        assert(es.take(es.len() as int) =~= es);
                        self.pending_swap = Some(swap);
                        self.pending = true;
                        assert(self.state() =~= (State {
                            pending: true,
                            ..logged.swap_extended(es)
                        }));
                        self.see(lsn);
                    }
                },
            }
        }
        Ok(())
    }
}

/// The first value that cannot be moved is why no more can.
proof fn lemma_movable_stops<F>(s: State<F>, old: u64, es: Seq<EntryModel>)
    ensures
        s.movable(old, es) < es.len() ==> s.move_error(old, es[s.movable(old, es) as int]) is Some,
    decreases es.len(),
{
    if es.len() > 0 {
        let front = es.drop_last();
        lemma_movable_bound(s, old, front);
        lemma_movable_stops(s, old, front);
        let n = s.movable(old, front);
        if n < front.len() {
            assert(front[n as int] == es[n as int]);
        }
    }
}

impl<F> Store<F> {
    /// Applies a replicated leader record at an explicit LSN; `io` tells how
    /// the file operations that [`Store::apply_io`] called for went. Used by
    /// followers; segment layout decisions are driven entirely by the
    /// replicated `SegmentSeal` records, so follower and leader layouts
    /// match exactly.
    pub fn apply_record(
        &mut self,
        lsn: Lsn,
        rec: &Record,
        data: Option<&[u8]>,
        io: ApplyDone<F>,
    ) -> (res: Result<(), StoreError>)
        requires
            old(self).wf(),
            old(self).state().can_apply(lsn, rec@),
            done_as(
                old(self).state().io_kind(
                    rec@,
                    match data {
                        Some(d) => Some(d@),
                        None => None,
                    },
                ),
                io,
            ),
        ensures
            final(self).wf(),
            final(self).reader() == old(self).reader(),
            final(self).shown() == old(self).shown(),
            applies(
                old(self).state(),
                lsn,
                rec@,
                match data {
                    Some(d) => Some(d@),
                    None => None,
                },
                io,
                final(self).state(),
                res,
            ),
    {
        let ghost s = self.inner.state();
        match rec {
            Record::Put { .. } => {
                return self.inner.apply_put(lsn, rec, data, io);
            },
            Record::SegmentSeal { segment_id, next_segment_id } => {
                if *segment_id != self.inner.active_id {
                    let mut msg = "seal for segment ".to_string();
                    msg.append(decimal(*segment_id).as_str());
                    msg.append(" but follower active segment is ");
                    msg.append(decimal(self.inner.active_id).as_str());
                    return Err(StoreError::Corrupt(msg));
                }
                proof {
                    lemma_fixed_encodable(rec@);
                }
                self.inner.wal.append_at(rec, lsn)?;
                let sealed_id: u64 = self.inner.active_id;
                self.inner.sealed.push(sealed_id);
                self.inner.active_id = *next_segment_id;
                self.inner.active_offset = 0;
                if *next_segment_id + 1 > self.inner.next_free_id {
                    self.inner.next_free_id = *next_segment_id + 1;
                }
                self.inner.pending = true;
                assert(self.inner.state() =~= s.seal_applied(*next_segment_id, lsn, rec@));
                self.inner.see(lsn);
            },
            Record::AggDelta { .. } => {
                self.inner.wal.append_at(rec, lsn)?;
                self.inner.pending = true;
                assert(self.inner.state() =~= s.logged(rec@, lsn));
                self.inner.see(lsn);
            },
            Record::SegmentSwap { old_segment_id, new_segment_id } => {
                if self.inner.pending_swap.is_some() {
                    return Err(StoreError::Corrupt("overlapping segment swap".to_string()));
                }
                proof {
                    lemma_fixed_encodable(rec@);
                }
                if let ApplyDone::Created(created) = io {
                    let file = created?;
                    self.inner.wal.append_at(rec, lsn)?;
                    self.inner.pending_swap =
                    Some(
                        PendingSwap {
                            old: *old_segment_id,
                            new: *new_segment_id,
                            file,
                            entries: Vec::new(),
                        },
                    );
                    self.inner.pending = true;
                    assert(self.inner.state() =~= (State {
                        swap: Some(
                            SwapModel {
                                old: *old_segment_id,
                                new: *new_segment_id,
                                file,
                                entries: Seq::empty(),
                            },
                        ),
                        ..s.logged(rec@, lsn)
                    }));
                    self.inner.see(lsn);
                }
            },
            Record::SegmentRemap { .. } => {
                return self.inner.apply_remap(lsn, rec, io);
            },
            Record::Commit { lsn: committed } => {
                proof {
                    lemma_fixed_encodable(rec@);
                }
                self.inner.wal.append_at(rec, lsn)?;
                self.inner.see(lsn);
                if *committed > self.inner.committed_lsn {
                    self.inner.committed_lsn = *committed;
                }
                if lsn > self.inner.last_commit_block {
                    self.inner.last_commit_block = lsn;
                }
                self.inner.pending = true;
                assert(self.inner.state() =~= (State {
                    layout: s.layout.commit(*committed, lsn).seen(lsn),
                    ..s.logged(rec@, lsn)
                }));
            },
        }
        Ok(())
    }
}

} // verus!
