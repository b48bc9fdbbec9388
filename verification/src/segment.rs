//! Append-only segment store with lock-free reads.

pub mod apply;
pub mod compact;
pub mod open;
pub mod cell;
pub mod publish;
pub mod read;

use std::collections::{BTreeMap, BTreeSet};
use std::sync::Arc;

use vstd::prelude::*;
use vstd::std_specs::btree::*;
use vstd::string::*;

use crate::error::{ErrorModel, StoreError};
use crate::layout::{without, Layout, Location, PutLocation, PutModel};
use crate::rollup::{byte_count, lemma_recount_put, segments, Rollup};
use crate::ordered::{increasing, lists, members_of};
use crate::state::{agg_record, Published, State, SwapModel};
use crate::table::{put, Table};
use crate::text::{
    decimal8, digits_value, is_digit, lemma_digits_differ, lemma_padded_value, lemma_padded_width,
    padded,
};
use crate::visible::{shows, whole};
use crate::wal::{
    encode_record, entry_models, lemma_fixed_encodable, log_bytes, logged_models, EntryModel, Lsn,
    Record, RecordModel, RemapEntry, Wal,
};

use self::cell::{Publisher, SnapCell};

verus! {

pub type ObjectId = u64;

#[derive(Debug, Clone, Copy)]
pub struct StoreOptions {
    pub segment_max_bytes: u64,
}

impl Default for StoreOptions {
    fn default() -> (o: StoreOptions)
        ensures
            o.segment_max_bytes == 16 * 1024 * 1024,
    {
        StoreOptions { segment_max_bytes: 16 * 1024 * 1024 }
    }
}

/// The name of a segment file.
pub open spec fn seg_file(id: u64) -> Seq<char> {
    "seg-"@ + padded(id as nat, 8) + ".dat"@
}

pub fn seg_name(id: u64) -> (name: String)
    ensures
        name@ == seg_file(id),
{
    let mut name = "seg-".to_string();
    name.append(decimal8(id).as_str());
    name.append(".dat");
    name
}

/// The name of the file in which segment `id` is put together.
pub open spec fn tmp_file(id: u64) -> Seq<char> {
    seg_file(id) + ".tmp"@
}

pub fn tmp_name(id: u64) -> (name: String)
    ensures
        name@ == tmp_file(id),
{
    let mut name = seg_name(id);
    name.append(".tmp");
    name
}

/// `name` is that of a segment file: the prefix, eight digits, the suffix.
pub open spec fn is_seg_file(name: Seq<char>) -> bool {
    &&& name.len() == 16
    &&& name.take(4) == "seg-"@
    &&& name.skip(12) == ".dat"@
    &&& forall|i: int| 4 <= i < 12 ==> is_digit(#[trigger] name[i])
}

pub fn parse_segment_name(name: &str) -> (id: Option<u64>)
    ensures
        id is Some <==> is_seg_file(name@),
        id matches Some(n) ==> n == digits_value(name@.subrange(4, 12)),
{
    proof {
        reveal_strlit("seg-");
        reveal_strlit(".dat");
    }
    let ghost s = name@;
    if name.unicode_len() != 16 {
        return None;
    }
    let prefix = name.substring_char(0, 4).to_string();
    let suffix = name.substring_char(12, 16).to_string();
    proof {
        assert(s.take(4) =~= prefix@);
        assert(s.skip(12) =~= suffix@);
    }
    if !(prefix == "seg-".to_string()) || !(suffix == ".dat".to_string()) {
        return None;
    }
    let mut n: u64 = 0;
    let ghost mut bound: nat = 1;
    for i in 4..12usize
        invariant
            s == name@,
            s.len() == 16,
            s.take(4) == "seg-"@,
            s.skip(12) == ".dat"@,
            forall|j: int| 4 <= j < i ==> is_digit(#[trigger] s[j]),
            n == digits_value(s.subrange(4, i as int)),
            n < bound,
            i == 4 ==> bound == 1,
            i == 5 ==> bound == 10,
            i == 6 ==> bound == 100,
            i == 7 ==> bound == 1000,
            i == 8 ==> bound == 10000,
            i == 9 ==> bound == 100000,
            i == 10 ==> bound == 1000000,
            i == 11 ==> bound == 10000000,
            i == 12 ==> bound == 100000000,
    {
        let c: char = name.get_char(i);
        if !('0' <= c && c <= '9') {
            assert(!is_digit(s[i as int]));
            return None;
        }
        assert(s.subrange(4, i + 1).drop_last() =~= s.subrange(4, i as int));
        n = 10 * n + (c as u64 - 48);
        proof {
            bound = 10 * bound;
        }
    }
    Some(n)
}

/// A segment's name is read back as its number, as long as the number has at
/// most eight digits.
pub proof fn lemma_parse_seg_name(id: u64)
    ensures
        is_seg_file(seg_file(id)) <==> id < 100_000_000,
        id < 100_000_000 ==> digits_value(seg_file(id).subrange(4, 12)) == id,
{
    reveal_strlit("seg-");
    reveal_strlit(".dat");
    lemma_padded_width(id as nat);
    lemma_padded_value(id as nat, 8);
    let name = seg_file(id);
    let ds = padded(id as nat, 8);
    if id < 100_000_000 {
        assert(name.take(4) =~= "seg-"@);
        assert(name.skip(12) =~= ".dat"@);
        assert(name.subrange(4, 12) =~= ds);
        assert forall|i: int| 4 <= i < 12 implies is_digit(#[trigger] name[i]) by {
            assert(name[i] == ds[i - 4]);
        }
    }
}

/// Every segment has a file of its own, and one of its own in which it is put
/// together, which is never taken for that of a segment.
pub proof fn lemma_segment_files_differ(id: u64, id2: u64)
    ensures
        seg_file(id) == seg_file(id2) ==> id == id2,
        tmp_file(id) == tmp_file(id2) ==> id == id2,
        tmp_file(id) != seg_file(id2),
        !is_seg_file(tmp_file(id)),
{
    reveal_strlit("seg-");
    reveal_strlit(".dat");
    reveal_strlit(".tmp");
    lemma_padded_value(id as nat, 8);
    lemma_padded_value(id2 as nat, 8);
    lemma_digits_differ(id as nat, id2 as nat, 8);
    let (a, b) = (seg_file(id), seg_file(id2));
    let (ds, ds2) = (padded(id as nat, 8), padded(id2 as nat, 8));
    if a == b {
        assert(a.subrange(4, 4int + ds.len()) =~= ds);
        assert(b.subrange(4, 4int + ds2.len()) =~= ds2);
        assert(a.len() == 8 + ds.len() && b.len() == 8 + ds2.len());
    }
    let (t, t2) = (tmp_file(id), tmp_file(id2));
    assert(t.take(t.len() - 4) =~= a);
    assert(t2.take(t2.len() - 4) =~= b);
    assert(t.last() == 'p');
    assert(b.last() == 't');
    assert(t.len() > 16);
}

/// A replacement of a segment that waits for the next sync: the records of
/// it, and the temporary file that holds the moved values.
struct PendingSwap<F> {
    old: u64,
    new: u64,
    file: F,
    entries: Vec<RemapEntry>,
}

/// What put locations say.
pub open spec fn put_models(m: Map<u64, PutLocation>) -> Map<u64, PutModel> {
    m.map_values(|p: PutLocation| p@)
}

struct Inner<F> {
    options: StoreOptions,
    wal: Wal,
    segments: BTreeMap<u64, Arc<F>>,
    index: Table<Location>,
    put_locations: BTreeMap<u64, PutLocation>,
    rollup: Rollup,
    active_id: u64,
    active_offset: u64,
    pending: bool,
    committed_lsn: Lsn,
    last_commit_block: Lsn,
    applied_upto: Lsn,
    dirty_segments: BTreeSet<u64>,
    sealed: Vec<u64>,
    next_free_id: u64,
    pending_swap: Option<PendingSwap<F>>,
    durable_commit: Lsn,
}

/// What the handles of open files are.
pub open spec fn handles<F>(m: Map<u64, Arc<F>>) -> Map<u64, F> {
    m.map_values(|a: Arc<F>| *a)
}

impl<F> Inner<F> {
    spec fn layout(&self) -> Layout {
        Layout {
            index: self.index@,
            puts: put_models(self.put_locations@),
            live: self.rollup@,
            active_id: self.active_id,
            active_offset: self.active_offset,
            sealed: self.sealed@,
            committed_lsn: self.committed_lsn,
            last_commit_block: self.last_commit_block,
            applied_upto: self.applied_upto,
        }
    }

    spec fn state(&self) -> State<F> {
        State {
            max: self.options.segment_max_bytes,
            layout: self.layout(),
            wal: self.wal@,
            open: handles(self.segments@),
            pending: self.pending,
            dirty: self.dirty_segments@,
            next_free_id: self.next_free_id,
            swap: match self.pending_swap {
                Some(p) => Some(
                    SwapModel {
                        old: p.old,
                        new: p.new,
                        file: p.file,
                        entries: entry_models(p.entries@),
                    },
                ),
                None => None,
            },
            durable_commit: self.durable_commit,
        }
    }

    spec fn wf(&self) -> bool {
        &&& self.wal.wf()
        &&& self.wal@.next_lsn > 0
        &&& self.index.wf()
        &&& self.rollup.wf()
        &&& self.state().commits_applied()
    }
}

fn drop_id(ids: &Vec<u64>, id: u64) -> (out: Vec<u64>)
    ensures
        out@ == without(ids@, id),
{
    let mut out: Vec<u64> = Vec::new();
    for i in 0..ids.len()
        invariant
            out@ == without(ids@.take(i as int), id),
    {
        assert(ids@.take(i + 1).drop_last() =~= ids@.take(i as int));
        if ids[i] != id {
            out.push(ids[i]);
        }
    }
    assert(ids@.take(ids@.len() as int) =~= ids@);
    out
}

impl<F> Inner<F> {
    /// Records the place of a put and makes it the newest of its key.
    fn place(&mut self, key: &str, len: u32, lsn: Lsn)
        requires
            old(self).wf(),
            old(self).active_offset + len <= u64::MAX,
            old(self).rollup@.len() < u64::MAX,
            byte_count(put(old(self).rollup@, key@, len as u64), Seq::empty()) <= u64::MAX,
        ensures
            final(self).wf(),
            final(self).state() == (State {
                layout: old(self).layout().put(key@, len, lsn),
                ..old(self).state()
            }),
    {
        let at = Location { seg: self.active_id, offset: self.active_offset, len, lsn };
        self.index.insert(key, at);
        let p = PutLocation {
            key: key.to_string(),
            seg: self.active_id,
            offset: self.active_offset,
            len,
        };
        let ghost before = self.put_locations@;
        self.put_locations.insert(lsn, p);
        assert(put_models(before.insert(lsn, p)) =~= put_models(before).insert(lsn, p@));
        self.rollup.record(key, len as u64);
        self.active_offset = self.active_offset + len as u64;
        assert(self.state() =~= (State {
            layout: old(self).layout().put(key@, len, lsn),
            ..old(self).state()
        }));
    }

    /// Points what is known of a put at its new place.
    fn repoint(&mut self, e: &RemapEntry, new: u64)
        requires
            old(self).wf(),
        ensures
            final(self).wf(),
            final(self).state() == (State {
                layout: old(self).layout().repoint(e@, new),
                ..old(self).state()
            }),
    {
        if let Some(at) = self.index.get(e.key.as_str()) {
            if at.lsn == e.lsn {
                self.index.insert(
                    e.key.as_str(),
                    Location { seg: new, offset: e.offset, len: e.len, lsn: e.lsn },
                );
            }
        }
        let p = PutLocation { key: e.key.clone(), seg: new, offset: e.offset, len: e.len };
        let ghost before = self.put_locations@;
        self.put_locations.insert(e.lsn, p);
        assert(put_models(before.insert(e.lsn, p)) =~= put_models(before).insert(e.lsn, p@));
        assert(self.state() =~= (State {
            layout: old(self).layout().repoint(e@, new),
            ..old(self).state()
        }));
    }

    fn repoint_all(&mut self, entries: &Vec<RemapEntry>, new: u64)
        requires
            old(self).wf(),
        ensures
            final(self).wf(),
            final(self).state() == (State {
                layout: old(self).layout().repoint_all(entry_models(entries@), new),
                ..old(self).state()
            }),
    {
        let ghost es = entry_models(entries@);
        assert(es.take(0) =~= Seq::<EntryModel>::empty());
        for i in 0..entries.len()
            invariant
                self.wf(),
                es == entry_models(entries@),
                self.state() == (State {
                    layout: old(self).layout().repoint_all(es.take(i as int), new),
                    ..old(self).state()
                }),
        {
            assert(es.take(i + 1).drop_last() =~= es.take(i as int));
            self.repoint(&entries[i], new);
        }
        assert(es.take(es.len() as int) =~= es);
    }

    /// Puts segment `new` in the place of `old`.
    fn replace(&mut self, old_id: u64, new: u64)
        requires
            old(self).wf(),
        ensures
            final(self).wf(),
            final(self).state() == (State {
                layout: old(self).layout().replace(old_id, new),
                ..old(self).state()
            }),
    {
        let mut sealed = drop_id(&self.sealed, old_id);
        sealed.push(new);
        self.sealed = sealed;
    }
}

/// A committed snapshot, as readers use it.
pub struct Snap<F> {
    committed: Lsn,
    index: Table<Location>,
    files: BTreeMap<u64, Arc<F>>,
    put_locations: BTreeMap<u64, PutLocation>,
    rollup: Rollup,
}

impl<F> Snap<F> {
    pub closed spec fn wf(&self) -> bool {
        &&& self.index.wf()
        &&& self.rollup.wf()
        &&& whole(self.model())
    }

    /// What the snapshot shows.
    pub closed spec fn model(&self) -> Published<F> {
        Published {
            committed: self.committed,
            index: self.index@,
            files: handles(self.files@),
            puts: put_models(self.put_locations@),
            live: self.rollup@,
        }
    }
}

/// `Arc::clone`: another handle to the same value.
#[verifier::external_body]
pub(crate) fn share<T>(a: &Arc<T>) -> (b: Arc<T>)
    ensures
        b == *a,
{
    Arc::clone(a)
}

/// A store: the state that its one writer works on, and the snapshot that it
/// published last.
#[verifier::reject_recursive_types(F)]
pub struct Store<F> {
    inner: Inner<F>,
    published: Arc<Snap<F>>,
    snap: Publisher<F>,
}

impl<F> Store<F> {
    pub closed spec fn wf(&self) -> bool {
        &&& self.inner.wf()
        &&& self.published.wf()
        &&& self.snap.last() == self.published.model()
    }

    /// The state of the store.
    pub closed spec fn state(&self) -> State<F> {
        self.inner.state()
    }

    /// What readers see: the snapshot that was published last.
    pub closed spec fn shown(&self) -> Published<F> {
        self.published.model()
    }

    /// The place that read handles over this store read. It stays the same
    /// while the store lives, so a handle taken once sees all that is
    /// published.
    pub closed spec fn reader(&self) -> SnapCell<F> {
        self.snap.cell()
    }
}

/// How the file of the active segment was opened and written to.
pub struct SegmentIo<F> {
    /// The file, where it had to be opened and could be.
    pub opened: Option<Arc<F>>,
    /// How opening and writing went.
    pub result: Result<(), StoreError>,
}

/// Where the bytes of a value are to be written.
pub struct PutTarget<F> {
    pub segment: u64,
    pub offset: u64,
    /// The segment's file; to be opened where there is none.
    pub file: Option<Arc<F>>,
}

pub struct StagedPut {
    pub object_id: ObjectId,
    pub records: Vec<(Lsn, Record)>,
}

/// The handle that an option of a shared one holds.
pub open spec fn handle<F>(a: Option<Arc<F>>) -> Option<F> {
    match a {
        Some(h) => Some(*h),
        None => None,
    }
}

impl<F> Inner<F> {
    /// Makes `file` the file of segment `id`.
    fn attach(&mut self, id: u64, file: Arc<F>)
        requires
            old(self).wf(),
        ensures
            final(self).wf(),
            final(self).state() == (State {
                open: old(self).state().open.insert(id, *file),
                ..old(self).state()
            }),
    {
        let ghost before = self.segments@;
        self.segments.insert(id, file);
        assert(handles(before.insert(id, file)) =~= handles(before).insert(id, *file));
    }

    /// The file of a segment, if it is open.
    fn file_of(&self, id: u64) -> (file: Option<Arc<F>>)
        ensures
            handle(file) == (if self.state().open.contains_key(id) {
                Some(self.state().open[id])
            } else {
                None
            }),
    {
        match self.segments.get(&id) {
            Some(f) => Some(share(f)),
            None => None,
        }
    }

    /// Opens the active segment with what opening it gave, unless it is open.
    fn open_segment(&mut self, opened: Option<Arc<F>>) -> (open: bool)
        requires
            old(self).wf(),
        ensures
            final(self).wf(),
            final(self).state() == old(self).state().with_active(handle(opened)),
            open == final(self).state().active_open(),
    {
        if self.segments.contains_key(&self.active_id) {
            return true;
        }
        match opened {
            Some(file) => {
                self.attach(self.active_id, file);
                true
            },
            None => false,
        }
    }

    fn seal_active_record(&mut self) -> (logged: (Lsn, Record))
        requires
            old(self).wf(),
            old(self).wal@.next_lsn < u64::MAX,
            old(self).next_free_id < u64::MAX,
        ensures
            final(self).wf(),
            final(self).state() == old(self).state().seal_active(),
            logged.0 == old(self).wal@.next_lsn,
            logged.1@ == old(self).state().seal_record(),
    {
        let lsn: u64 = self.wal.next_lsn();
        let next: u64 = self.next_free_id;
        self.next_free_id = next + 1;
        let rec = Record::SegmentSeal { segment_id: self.active_id, next_segment_id: next };
        proof {
            lemma_fixed_encodable(rec@);
        }
        let appended = self.wal.append(&rec);
        assert(appended is Ok);
        self.pending = true;
        self.sealed.push(self.active_id);
        self.active_id = next;
        self.active_offset = 0;
        assert(self.state() =~= old(self).state().seal_active());
        (lsn, rec)
    }
}

/// The outcome of staging a put of `value` under `key`, from how opening and
/// writing to the active segment went.
pub open spec fn stages<F>(
    before: State<F>,
    key: Seq<char>,
    value: Seq<u8>,
    io: SegmentIo<F>,
    after: State<F>,
    res: Result<StagedPut, StoreError>,
) -> bool {
    let len = value.len();
    let ready = before.before_put(len).with_active(handle(io.opened));
    if len > u32::MAX {
        &&& after == before
        &&& res matches Err(e) && e@ == ErrorModel::RecordTooLarge
    } else if io.result is Err {
        &&& after == ready
        &&& res matches Err(e) && Err::<(), StoreError>(e) == io.result
    } else if !ready.active_open() {
        &&& after == ready
        &&& res matches Err(e) && e@ == ErrorModel::Corrupt("active segment not open"@)
    } else if !ready.put_fits(key, len as u32) {
        &&& after == ready
        &&& res matches Err(e) && e@ == ErrorModel::RecordTooLarge
    } else {
        &&& after == ready.staged(key, len as u32)
        &&& res matches Ok(staged) && staged.object_id == ready.wal.next_lsn && logged_models(
            staged.records@,
        ) == after.appended_since(before)
    }
}

impl<F> Store<F> {
    /// Whether all numbers stay within 64 bits through a put of `len` bytes.
    pub fn has_room(&self, len: u64) -> (room: bool)
        requires
            self.wf(),
        ensures
            room == self.state().has_room(len as nat),
    {
        proof {
            reveal_strlit("");
            assert(""@ =~= Seq::<char>::empty());
        }
        let root = self.inner.rollup.get("");
        let live: usize = self.inner.rollup.object_total();
        self.inner.active_offset <= u64::MAX - len && self.inner.wal.next_lsn() <= u64::MAX - 4
            && self.inner.next_free_id <= u64::MAX - 2 && (live as u64) < u64::MAX
            && root.byte_count <= u64::MAX - len
    }

    /// Where the value of the next put is to be written, if it has `len`
    /// bytes.
    pub fn put_target(&self, len: u64) -> (target: PutTarget<F>)
        requires
            self.wf(),
            self.state().has_room(len as nat),
        ensures
            ({
                let s = self.state().before_put(len as nat);
                &&& (target.segment, target.offset) == self.state().place_for(len as nat)
                &&& handle(target.file) == (if s.active_open() {
                    Some(s.open[s.layout.active_id])
                } else {
                    None
                })
            }),
    {
        let due: bool = self.inner.active_offset > 0 && self.inner.active_offset + len
            > self.inner.options.segment_max_bytes;
        let segment: u64 = if due {
            self.inner.next_free_id
        } else {
            self.inner.active_id
        };
        let offset: u64 = if due {
            0
        } else {
            self.inner.active_offset
        };
        PutTarget { segment, offset, file: self.inner.file_of(segment) }
    }

    /// Records a put of `value` under `key` without committing it: the `Put`
    /// (plus any `SegmentSeal` and `AggDelta`) records are appended to the WAL
    /// buffer and returned. The value has been written where
    /// [`Store::put_target`] said, and `io` tells how that went. Durability is
    /// the caller's responsibility via [`Store::sync_wal`] and
    /// [`Store::commit`].
    pub fn stage_put(&mut self, key: &str, value: &[u8], io: SegmentIo<F>) -> (res: Result<
        StagedPut,
        StoreError,
    >)
        requires
            old(self).wf(),
            old(self).state().has_room(value@.len()),
        ensures
            final(self).wf(),
            final(self).reader() == old(self).reader(),
            final(self).shown() == old(self).shown(),
            stages(old(self).state(), key@, value@, io, final(self).state(), res),
    {
        if value.len() > u32::MAX as usize {
            return Err(StoreError::RecordTooLarge);
        }
        let ghost before = self.inner.state();
        let len: u64 = value.len() as u64;
        let mut records: Vec<(Lsn, Record)> = Vec::new();
        if self.inner.active_offset > 0 && self.inner.active_offset + len
            > self.inner.options.segment_max_bytes {
            let sealed = self.inner.seal_active_record();
            records.push(sealed);
        }
        let open: bool = self.inner.open_segment(io.opened);
        let ghost ready = self.inner.state();
        assert(ready == before.before_put(len as nat).with_active(handle(io.opened)));
        io.result?;
        if !open {
            return Err(StoreError::Corrupt("active segment not open".to_string()));
        }
        let put_lsn: u64 = self.inner.wal.next_lsn();
        let put_rec = Record::Put {
            key: key.to_string(),
            len: value.len() as u32,
            stripe_id: put_lsn,
        };
        let agg_rec = Record::AggDelta { deltas: Rollup::deltas_for(key, len) };
        assert(agg_rec@ == agg_record(key@, len as u32));
        // Both records have to fit before either is logged: a put on its own
        // would move everything that is recovered after it.
        encode_record(&agg_rec)?;
        self.inner.wal.append(&put_rec)?;
        let agg_lsn: u64 = self.inner.wal.next_lsn();
        let appended = self.inner.wal.append(&agg_rec);
        assert(appended is Ok);
        records.push((put_lsn, put_rec));
        records.push((agg_lsn, agg_rec));
        proof {
            self.inner.rollup.lemma_distinct();
            lemma_recount_put(self.inner.rollup@, key@, len, Seq::empty());
        }
        self.inner.place(key, value.len() as u32, put_lsn);
        self.inner.dirty_segments.insert(self.inner.active_id);
        self.inner.pending = true;
        if len > self.inner.options.segment_max_bytes {
            let sealed = self.inner.seal_active_record();
            records.push(sealed);
        }
        proof {
            assert(self.inner.state() =~= ready.staged(key@, len as u32));
            assert(logged_models(records@) =~= self.inner.state().appended_since(before));
        }
        Ok(StagedPut { object_id: put_lsn, records })
    }

    /// Records a put of `value` under `key` without committing it, as
    /// [`Store::stage_put`] does. Gives the put's [`ObjectId`]. The put is
    /// durable once [`Store::flush`] (or [`Store::commit`]) completes the
    /// commit protocol.
    pub fn put(&mut self, key: &str, value: &[u8], io: SegmentIo<F>) -> (res: Result<
        ObjectId,
        StoreError,
    >)
        requires
            old(self).wf(),
            old(self).state().has_room(value@.len()),
        ensures
            final(self).wf(),
            final(self).reader() == old(self).reader(),
            final(self).shown() == old(self).shown(),
            exists|staged: Result<StagedPut, StoreError>| #[trigger]
                stages(old(self).state(), key@, value@, io, final(self).state(), staged) && res
                    == (match staged {
                    Ok(s) => Ok::<ObjectId, StoreError>(s.object_id),
                    Err(e) => Err(e),
                }),
    {
        match self.stage_put(key, value, io) {
            Ok(staged) => Ok(staged.object_id),
            Err(e) => Err(e),
        }
    }

    /// The bytes to write at the end of the WAL file, which is then to be
    /// fsynced; nothing if there is nothing to sync.
    pub fn unsynced_wal(&self) -> (bytes: Option<&[u8]>)
        requires
            self.wf(),
        ensures
            match bytes {
                Some(b) => self.state().wal.buffered.len() > 0 && b@ == log_bytes(
                    self.state().wal.buffered,
                ),
                None => self.state().wal.buffered.len() == 0,
            },
    {
        self.inner.wal.unsynced()
    }

    /// Takes note of how syncing the WAL buffer went, without a commit record.
    pub fn sync_wal(&mut self, written: Result<(), StoreError>) -> (res: Result<(), StoreError>)
        requires
            old(self).wf(),
        ensures
            final(self).wf(),
            final(self).reader() == old(self).reader(),
            final(self).shown() == old(self).shown(),
            wal_syncs(old(self).state(), written, final(self).state(), res),
    {
        if self.inner.wal.unsynced().is_none() {
            return Ok(());
        }
        self.inner.wal.sync(written)?;
        self.inner.durable_commit = self.inner.last_commit_block;
        assert(self.inner.state() =~= old(self).inner.state().wal_synced());
        Ok(())
    }

    /// The open segments that were written to since the last sync, in order.
    pub fn dirty_files(&self) -> (files: Vec<(u64, Arc<F>)>)
        requires
            self.wf(),
        ensures
            lists(
                files@.map_values(|f: (u64, Arc<F>)| f.0),
                self.state().dirty.intersect(self.state().open.dom()),
            ),
            forall|i: int|
                0 <= i < files@.len() ==> *(#[trigger] files@[i]).1 == self.state().open[files@[i].0],
    {
        let ids = members_of(&self.inner.dirty_segments);
        let mut files: Vec<(u64, Arc<F>)> = Vec::new();
        let ghost dirty = self.state().dirty;
        let ghost open = self.state().open;
        for i in 0..ids.len()
            invariant
                dirty == self.state().dirty,
                open == self.state().open,
                lists(ids@, dirty),
                forall|j: int|
                    0 <= j < files@.len() ==> open.contains_key((#[trigger] files@[j]).0)
                        && *files@[j].1 == open[files@[j].0] && ids@.take(i as int).contains(
                        files@[j].0,
                    ),
                increasing(files@.map_values(|f: (u64, Arc<F>)| f.0)),
                forall|j: int|
                    0 <= j < i && open.contains_key(#[trigger] ids@[j]) ==> files@.map_values(
                        |f: (u64, Arc<F>)| f.0,
                    ).contains(ids@[j]),
        {
            let id: u64 = ids[i];
            let ghost names = files@.map_values(|f: (u64, Arc<F>)| f.0);
            let ghost done = ids@.take(i as int);
            let ghost more = ids@.take(i + 1);
            let ghost before = files@;
            assert(more =~= done.push(id));
            match self.inner.file_of(id) {
                Some(f) => {
                    files.push((id, f));
                    assert(files@.map_values(|f: (u64, Arc<F>)| f.0) =~= names.push(id));
                    assert(names.push(id)[names.len() as int] == id);
                },
                None => {},
            }
            proof {
                let after = files@.map_values(|f: (u64, Arc<F>)| f.0);
                assert forall|j: int| 0 <= j < files@.len() implies open.contains_key(
                    (#[trigger] files@[j]).0,
                ) && *files@[j].1 == open[files@[j].0] && more.contains(files@[j].0) by {
                    if j < before.len() {
                        assert(files@[j] == before[j]);
                        let k = choose|k: int| 0 <= k < done.len() && done[k] == before[j].0;
                        assert(more[k] == before[j].0);
                    } else {
                        assert(more[i as int] == id);
                    }
                }
                assert forall|a: int, b: int| 0 <= a < b < after.len() implies after[a] < after[b] by {
                    if b < names.len() {
                        assert(names[a] < names[b]);
                    } else {
                        assert(files@[a] == before[a]);
                        let k = choose|k: int| 0 <= k < done.len() && done[k] == before[a].0;
                        assert(ids@[k] < ids@[i as int]);
                    }
                }
                assert forall|j: int| 0 <= j < i + 1 && open.contains_key(#[trigger] ids@[j]) implies after.contains(
                    ids@[j],
                ) by {
                    if j < i {
                        let k = choose|k: int| 0 <= k < names.len() && names[k] == ids@[j];
                        assert(after[k] == ids@[j]);
                    }
                }
            }
        }
        proof {
            let names = files@.map_values(|f: (u64, Arc<F>)| f.0);
            let want = dirty.intersect(open.dom());
            assert(ids@.take(ids@.len() as int) =~= ids@);
            assert forall|k: u64| #[trigger] want.contains(k) <==> names.contains(k) by {
                if want.contains(k) {
                    let j = choose|j: int| 0 <= j < ids@.len() && ids@[j] == k;
                    assert(open.contains_key(ids@[j]));
                }
                if names.contains(k) {
                    let j = choose|j: int| 0 <= j < names.len() && names[j] == k;
                    assert(files@[j].0 == k);
                    assert(ids@.contains(k));
                }
            }
        }
        files
    }
}

/// The outcome of a commit of everything up to `upto`, from how fsyncing the
/// dirty segments and then the WAL went.
pub open spec fn commits<F>(
    before: State<F>,
    shown: Published<F>,
    upto: u64,
    segments: Result<(), StoreError>,
    wal: Result<(), StoreError>,
    after: State<F>,
    shown_after: Published<F>,
    res: Result<(), StoreError>,
) -> bool {
    if !before.pending {
        after == before && shown_after == shown && res is Ok
    } else if segments is Err {
        after == before && shown_after == shown && res == segments
    } else if wal is Err {
        after == before.commit_logged(upto) && shown_after == shown && res == wal
    } else {
        &&& after == before.committed(upto)
        &&& shown_after == shows(before.committed(upto).snapshot(), shown)
        &&& res is Ok
    }
}

/// The outcome of a sync of the log alone, from how writing and fsyncing what
/// waits went.
pub open spec fn wal_syncs<F>(
    before: State<F>,
    written: Result<(), StoreError>,
    after: State<F>,
    res: Result<(), StoreError>,
) -> bool {
    if before.wal.buffered.len() == 0 {
        res is Ok && after == before
    } else {
        &&& res == written
        &&& after == (if written is Ok {
            before.wal_synced()
        } else {
            before
        })
    }
}

/// The outcome of completing the replacement that waits, if one does, from how
/// opening its file went.
pub open spec fn finishes_swap<F>(
    before: State<F>,
    reopened: Result<F, StoreError>,
    after: State<F>,
    res: Result<(), StoreError>,
) -> bool {
    match (before.swap, reopened) {
        (None, _) => res is Ok && after == before,
        (Some(_), Ok(file)) => res is Ok && after == before.swap_finished(file),
        (Some(_), Err(e)) => res == Err::<(), StoreError>(e) && after == (State {
            swap: None,
            ..before
        }),
    }
}

/// The outcome of a sync of everything that was applied, from how fsyncing the
/// dirty segments and then the WAL went.
pub open spec fn syncs<F>(
    before: State<F>,
    shown: Published<F>,
    segments: Result<(), StoreError>,
    wal: Result<(), StoreError>,
    after: State<F>,
    shown_after: Published<F>,
    res: Result<(), StoreError>,
) -> bool {
    if segments is Err {
        after == before && shown_after == shown && res == segments
    } else if before.wal.buffered.len() > 0 && wal is Err {
        after == before && shown_after == shown && res == wal
    } else {
        &&& after == before.all_synced()
        &&& shown_after == shows(before.all_synced().snapshot(), shown)
        &&& res is Ok
    }
}

impl<F> Store<F> {
    /// The bytes to write at the end of the WAL file, and to fsync, for a
    /// commit of everything up to `lsn`; nothing if nothing waits for a
    /// commit. The dirty segments are to be fsynced before.
    pub fn commit_bytes(&self, lsn: Lsn) -> (bytes: Option<Vec<u8>>)
        requires
            self.wf(),
        ensures
            match bytes {
                Some(b) => self.state().pending && b@ == log_bytes(
                    self.state().wal.buffered.push(
                        (self.state().wal.next_lsn, RecordModel::Commit { lsn }),
                    ),
                ),
                None => !self.state().pending,
            },
    {
        if !self.inner.pending {
            return None;
        }
        Some(self.inner.wal.unsynced_with_commit(lsn))
    }

    /// Commit protocol: dirty segments are fsynced, `Commit { lsn }` is
    /// appended, and the WAL is fsynced; `segments` and `wal` tell how the two
    /// went. All records with LSN <= `lsn` become durable and a new reader
    /// snapshot is published.
    pub fn commit(
        &mut self,
        lsn: Lsn,
        segments: Result<(), StoreError>,
        wal: Result<(), StoreError>,
    ) -> (res: Result<(), StoreError>)
        requires
            old(self).wf(),
            old(self).state().wal.next_lsn < u64::MAX,
        ensures
            final(self).wf(),
            final(self).reader() == old(self).reader(),
            commits(
                old(self).state(),
                old(self).shown(),
                lsn,
                segments,
                wal,
                final(self).state(),
                final(self).shown(),
                res,
            ),
    {
        if !self.inner.pending {
            return Ok(());
        }
        segments?;
        let ghost before = self.inner.state();
        let rec = Record::Commit { lsn };
        proof {
            lemma_fixed_encodable(rec@);
        }
        let block: u64 = self.inner.wal.next_lsn();
        let appended = self.inner.wal.append(&rec);
        assert(appended is Ok);
        assert(self.inner.state() =~= before.commit_logged(lsn));
        self.inner.wal.sync(wal)?;
        if lsn > self.inner.committed_lsn {
            self.inner.committed_lsn = lsn;
        }
        if block > self.inner.last_commit_block {
            self.inner.last_commit_block = block;
        }
        if block > self.inner.applied_upto {
            self.inner.applied_upto = block;
        }
        self.inner.durable_commit = self.inner.last_commit_block;
        assert(self.inner.layout() =~= before.layout.commit(lsn, block).seen(block));
        self.inner.pending = !self.inner.caught_up();
        self.inner.dirty_segments.clear();
        assert(self.inner.state() =~= before.committed(lsn));
        self.publish();
        Ok(())
    }

    /// What a flush commits up to; nothing if nothing waits for a commit.
    pub fn flush_lsn(&self) -> (lsn: Option<Lsn>)
        requires
            self.wf(),
        ensures
            lsn == (if self.state().pending {
                Some(self.state().last_lsn())
            } else {
                None
            }),
    {
        if !self.inner.pending {
            return None;
        }
        Some(self.inner.wal.next_lsn() - 1)
    }

    /// Commits everything currently staged.
    pub fn flush(
        &mut self,
        segments: Result<(), StoreError>,
        wal: Result<(), StoreError>,
    ) -> (res: Result<(), StoreError>)
        requires
            old(self).wf(),
            old(self).state().pending ==> old(self).state().wal.next_lsn < u64::MAX,
        ensures
            final(self).wf(),
            final(self).reader() == old(self).reader(),
            commits(
                old(self).state(),
                old(self).shown(),
                old(self).state().last_lsn(),
                segments,
                wal,
                final(self).state(),
                final(self).shown(),
                res,
            ),
    {
        match self.flush_lsn() {
            Some(lsn) => self.commit(lsn, segments, wal),
            None => Ok(()),
        }
    }

    /// The replacement of a segment that waits for the next sync: its old and
    /// new number. Its temporary file is to be fsynced, renamed to the new
    /// segment's name and opened again.
    pub fn waiting_swap(&self) -> (swap: Option<(u64, u64)>)
        ensures
            swap == (match self.state().swap {
                Some(w) => Some((w.old, w.new)),
                None => None,
            }),
    {
        match &self.inner.pending_swap {
            Some(w) => Some((w.old, w.new)),
            None => None,
        }
    }

    /// The temporary file of the replacement that waits for the next sync.
    pub fn waiting_file(&self) -> (file: Option<&F>)
        ensures
            match file {
                Some(f) => self.state().swap matches Some(w) && w.file == *f,
                None => self.state().swap is None,
            },
    {
        match &self.inner.pending_swap {
            Some(w) => Some(&w.file),
            None => None,
        }
    }

    /// Completes the replacement that waits, if there is one; `reopened` tells
    /// how syncing, renaming and opening the new segment's file went.
    pub fn finalize_pending_swap(&mut self, reopened: Result<Arc<F>, StoreError>) -> (res: Result<
        (),
        StoreError,
    >)
        requires
            old(self).wf(),
        ensures
            final(self).wf(),
            final(self).reader() == old(self).reader(),
            final(self).shown() == old(self).shown(),
            finishes_swap(
                old(self).state(),
                match reopened {
                    Ok(file) => Ok(*file),
                    Err(e) => Err(e),
                },
                final(self).state(),
                res,
            ),
    {
        let ghost before = self.inner.state();
        match self.inner.pending_swap.take() {
            Some(swap) => {
                let file = reopened?;
                self.inner.repoint_all(&swap.entries, swap.new);
                let ghost segments = self.inner.segments@;
                self.inner.segments.remove(&swap.old);
                assert(handles(segments.remove(swap.old)) =~= handles(segments).remove(swap.old));
                self.inner.attach(swap.new, file);
                self.inner.replace(swap.old, swap.new);
                assert(self.inner.state() =~= before.swap_finished(*file));
                Ok(())
            },
            None => {
                assert(self.inner.state() =~= before);
                Ok(())
            },
        }
    }

    /// Fsyncs dirty segment files and the WAL (follower durability point);
    /// `segments` and `wal` tell how the two went. A waiting replacement is
    /// finalized first, so a durable WAL always points at replacement files
    /// that exist on disk.
    pub fn sync_all(
        &mut self,
        segments: Result<(), StoreError>,
        wal: Result<(), StoreError>,
    ) -> (res: Result<(), StoreError>)
        requires
            old(self).wf(),
            old(self).state().swap is None,
        ensures
            final(self).wf(),
            final(self).reader() == old(self).reader(),
            syncs(
                old(self).state(),
                old(self).shown(),
                segments,
                wal,
                final(self).state(),
                final(self).shown(),
                res,
            ),
    {
        segments?;
        self.inner.wal.sync(wal)?;
        self.inner.durable_commit = self.inner.last_commit_block;
        self.inner.dirty_segments.clear();
        assert(self.inner.state() =~= old(self).inner.state().all_synced());
        self.publish();
        Ok(())
    }
}

} // verus!
