use shardvault::error::StoreError;
use shardvault::node::{
    dialer_step, ended, get_reply, put_reply, sync_ack_frame, Config, FollowerStream,
    FollowerWork, Leader, LinkWork, Outcome, Proposal, Work,
};
use shardvault::protocol::{Frame, ROLE_LEADER};
use shardvault::rollup::Aggregate;
use shardvault::segment::apply::{ApplyDone, ApplyIo};
use shardvault::segment::compact::CompactStage;
use shardvault::segment::open::can_open;
use shardvault::segment::cell::StoreView;
use shardvault::segment::read::ReadAt;
use shardvault::segment::{
    parse_segment_name, seg_name, tmp_name, SegmentIo, StagedPut, Store, StoreOptions,
};
use shardvault::wal::{mark_bytes, read_mark, Lsn, Record, MARK_FILE, WAL_FILE};
use std::cell::RefCell;
use std::collections::{BTreeMap, HashMap};
use std::rc::Rc;
use std::sync::Arc;
use std::time::{Duration, Instant};

type File = RefCell<Vec<u8>>;

/// The files of a directory, by name.
#[derive(Clone)]
struct Disk(Rc<RefCell<BTreeMap<String, Arc<File>>>>);

impl Disk {
    fn new() -> Disk {
        Disk(Rc::new(RefCell::new(BTreeMap::new())))
    }

    fn file(&self, name: &str) -> Arc<File> {
        self.0
            .borrow_mut()
            .entry(name.to_string())
            .or_insert_with(|| Arc::new(RefCell::new(Vec::new())))
            .clone()
    }

    fn create(&self, name: &str) -> Arc<File> {
        let file = Arc::new(RefCell::new(Vec::new()));
        self.0.borrow_mut().insert(name.to_string(), file.clone());
        file
    }

    fn remove(&self, name: &str) {
        self.0.borrow_mut().remove(name);
    }

    fn rename(&self, from: &str, to: &str) {
        let file = self.0.borrow_mut().remove(from).unwrap();
        self.0.borrow_mut().insert(to.to_string(), file);
    }

    fn names(&self) -> Vec<String> {
        self.0.borrow().keys().cloned().collect()
    }

    fn len(&self, name: &str) -> usize {
        self.file(name).borrow().len()
    }
}

fn write_at(file: &File, offset: u64, bytes: &[u8]) {
    let mut f = file.borrow_mut();
    let end = offset as usize + bytes.len();
    if f.len() < end {
        f.resize(end, 0);
    }
    f[offset as usize..end].copy_from_slice(bytes);
}

fn read_at(file: &File, offset: u64, len: u32) -> Vec<u8> {
    file.borrow()[offset as usize..offset as usize + len as usize].to_vec()
}

fn read_place(r: ReadAt<File>) -> Vec<u8> {
    read_at(&r.file, r.offset, r.len)
}

/// Reads a value, unless the file ends before it does.
fn try_read(r: ReadAt<File>) -> Option<Vec<u8>> {
    if r.len as usize > 0 && r.file.borrow().len() < r.offset as usize + r.len as usize {
        return None;
    }
    Some(read_place(r))
}

struct Db {
    disk: Disk,
    store: Store<File>,
    keep_wal: bool,
}

impl Db {
    fn try_open(disk: &Disk, opts: StoreOptions) -> Result<Db, StoreError> {
        let wal = disk.file(WAL_FILE).borrow().clone();
        assert!(can_open(&wal));
        let kept = disk.names().contains(&MARK_FILE.to_string());
        let mark = disk.file(MARK_FILE).borrow().clone();
        let floor = read_mark(if kept { Some(&mark) } else { None })?;
        assert!(floor < Lsn::MAX);
        let mut opening = Store::<File>::open_with_options(&wal, floor, opts);
        *disk.file(MARK_FILE).borrow_mut() = mark_bytes(opening.mark());
        disk.file(WAL_FILE)
            .borrow_mut()
            .truncate(opening.wal_len() as usize);
        let mut existing = Vec::new();
        for name in disk.names() {
            if name.ends_with(".tmp") {
                disk.remove(&name);
            } else if let Some(id) = parse_segment_name(&name) {
                existing.push((id, disk.len(&name) as u64));
            }
        }
        for (id, len) in opening.check_files(&existing)? {
            disk.file(&seg_name(id)).borrow_mut().truncate(len as usize);
        }
        for id in opening.retired() {
            disk.remove(&seg_name(*id));
        }
        let files = opening
            .wanted()
            .into_iter()
            .map(|id| (id, disk.file(&seg_name(id))))
            .collect();
        Ok(Db {
            disk: disk.clone(),
            store: opening.finish(files),
            keep_wal: true,
        })
    }

    fn open_with_options(disk: &Disk, opts: StoreOptions) -> Db {
        Db::try_open(disk, opts).unwrap()
    }

    fn open(disk: &Disk) -> Db {
        Db::open_with_options(disk, StoreOptions::default())
    }

    fn append_wal(&self, bytes: &[u8]) {
        if self.keep_wal {
            self.disk
                .file(WAL_FILE)
                .borrow_mut()
                .extend_from_slice(bytes);
        }
    }

    fn write_value(&self, value: &[u8]) -> SegmentIo<File> {
        assert!(self.store.has_room(value.len() as u64));
        let target = self.store.put_target(value.len() as u64);
        let (file, opened) = match target.file {
            Some(file) => (file, None),
            None => {
                let file = self.disk.file(&seg_name(target.segment));
                (file.clone(), Some(file))
            }
        };
        write_at(&file, target.offset, value);
        SegmentIo {
            opened,
            result: Ok(()),
        }
    }

    fn stage_put(&mut self, key: &str, value: &[u8]) -> Result<StagedPut, StoreError> {
        let io = self.write_value(value);
        self.store.stage_put(key, value, io)
    }

    fn put(&mut self, key: &str, value: &[u8]) -> Result<u64, StoreError> {
        let io = self.write_value(value);
        self.store.put(key, value, io)
    }

    fn sync_wal(&mut self) {
        if let Some(bytes) = self.store.unsynced_wal() {
            let bytes = bytes.to_vec();
            self.append_wal(&bytes);
        }
        self.store.sync_wal(Ok(())).unwrap();
    }

    fn commit(&mut self, lsn: Lsn) {
        if let Some(bytes) = self.store.commit_bytes(lsn) {
            self.append_wal(&bytes);
        }
        self.store.commit(lsn, Ok(()), Ok(())).unwrap();
    }

    fn flush(&mut self) {
        if let Some(lsn) = self.store.flush_lsn() {
            if let Some(bytes) = self.store.commit_bytes(lsn) {
                self.append_wal(&bytes);
            }
        }
        self.store.flush(Ok(()), Ok(())).unwrap();
    }

    fn get(&self, key: &str) -> Option<Vec<u8>> {
        self.store.get(key).unwrap().map(read_place)
    }

    fn get_upto(&self, key: &str, upto: Lsn) -> Option<Vec<u8>> {
        self.store.get_upto(key, upto).unwrap().map(read_place)
    }

    fn compact_stage(&mut self, horizon: Lsn) -> Option<CompactStage<File>> {
        let plan = match self.store.compact_plan(horizon).unwrap() {
            Some(plan) => plan,
            None => return None,
        };
        let tmp = tmp_name(plan.new_id());
        let file = self.disk.create(&tmp);
        for i in 0..plan.len() {
            let (from, to, len) = plan.copy(i);
            let value = read_at(&plan.source(), from, len);
            write_at(&file, to, &value);
        }
        self.disk.rename(&tmp, &seg_name(plan.new_id()));
        Some(self.store.compact_stage(plan, Ok(file)).unwrap())
    }

    fn compact_commit(&mut self, stage: CompactStage<File>) -> u64 {
        let old = match &stage.records[0].1 {
            Record::SegmentSwap { old_segment_id, .. } => *old_segment_id,
            other => panic!("unexpected record {other:?}"),
        };
        let freed = self.store.compact_commit(stage);
        self.disk.remove(&seg_name(old));
        freed
    }

    fn apply(&mut self, lsn: Lsn, rec: &Record, data: Option<&[u8]>) -> Result<(), StoreError> {
        assert!(self.store.can_apply(lsn, rec));
        let done = match self.store.apply_io(rec, data) {
            ApplyIo::Nothing => ApplyDone::Nothing,
            ApplyIo::Write {
                segment,
                offset,
                file,
            } => {
                let (file, opened) = match file {
                    Some(file) => (file, None),
                    None => {
                        let file = self.disk.file(&seg_name(segment));
                        (file.clone(), Some(file))
                    }
                };
                write_at(&file, offset, data.unwrap());
                ApplyDone::Wrote(SegmentIo {
                    opened,
                    result: Ok(()),
                })
            }
            ApplyIo::Create { segment } => {
                self.disk.create(&tmp_name(segment));
                ApplyDone::Created(Ok(RefCell::new(Vec::new())))
            }
            ApplyIo::Copy { values } => {
                for v in &values {
                    let bytes = read_at(&v.from, v.offset, v.len);
                    write_at(self.store.waiting_file().unwrap(), v.to, &bytes);
                }
                ApplyDone::Copied(values.len(), None)
            }
        };
        self.store.apply_record(lsn, rec, data, done)
    }

    fn sync_all(&mut self) {
        if let Some((old, new)) = self.store.waiting_swap() {
            let contents = self.store.waiting_file().unwrap().borrow().clone();
            self.disk.remove(&tmp_name(new));
            let file = self.disk.create(&seg_name(new));
            *file.borrow_mut() = contents;
            self.store.finalize_pending_swap(Ok(file)).unwrap();
            self.disk.remove(&seg_name(old));
        }
        if let Some(bytes) = self.store.unsynced_wal() {
            let bytes = bytes.to_vec();
            self.append_wal(&bytes);
        }
        self.store.sync_all(Ok(()), Ok(())).unwrap();
    }
}

fn corrupt_text(e: StoreError) -> String {
    match e {
        StoreError::Corrupt(msg) => msg,
        other => panic!("unexpected error {other:?}"),
    }
}

#[test]
fn put_get_roundtrip() {
    let disk = Disk::new();
    let mut db = Db::open(&disk);
    let id1 = db.put("alpha", b"hello").unwrap();
    let id2 = db.put("beta", b"world!").unwrap();
    let id3 = db.put("alpha", b"overwritten").unwrap();
    db.put("empty", b"").unwrap();
    db.flush();
    assert!(id1 < id2 && id2 < id3);
    assert_eq!(db.get("alpha"), Some(b"overwritten".to_vec()));
    assert_eq!(db.get("beta"), Some(b"world!".to_vec()));
    assert_eq!(db.get("gamma"), None);
    assert_eq!(db.get("empty"), Some(Vec::new()));
}

#[test]
fn reopen_preserves_keys() {
    let disk = Disk::new();
    let keys: Vec<(String, Vec<u8>)> = (0..50)
        .map(|i| (format!("ns/obj-{i:03}"), vec![i as u8; 64]))
        .collect();
    {
        let mut db = Db::open(&disk);
        for (k, v) in &keys {
            db.put(k, v).unwrap();
        }
        db.flush();
    }
    let db = Db::open(&disk);
    for (k, v) in &keys {
        assert_eq!(db.get(k).as_deref(), Some(v.as_slice()));
    }
    assert_eq!(db.get("missing"), None);
    assert_eq!(
        db.store.capacity(""),
        Aggregate {
            object_count: keys.len() as u64,
            byte_count: keys.iter().map(|(_, v)| v.len() as u64).sum(),
        }
    );
}

#[test]
fn uncommitted_tail_is_discarded_after_crash() {
    let disk = Disk::new();
    {
        let mut db = Db::open(&disk);
        db.put("k1", &[0x11; 100]).unwrap();
        db.flush();
        db.put("k2", &[0x22; 100]).unwrap();
        db.flush();
        db.put("k3", &[0x33; 100]).unwrap();
    }
    assert_eq!(disk.len("seg-00000000.dat"), 300);
    let db = Db::open(&disk);
    assert_eq!(db.get("k1"), Some(vec![0x11; 100]));
    assert_eq!(db.get("k2"), Some(vec![0x22; 100]));
    assert_eq!(db.get("k3"), None);
    assert_eq!(disk.len("seg-00000000.dat"), 200);
}

#[test]
fn sealed_segment_rollover() {
    let disk = Disk::new();
    let opts = StoreOptions {
        segment_max_bytes: 1024,
    };
    {
        let mut db = Db::open_with_options(&disk, opts);
        for i in 0..12 {
            db.put(&format!("key-{i:02}"), &vec![i as u8; 300]).unwrap();
        }
        db.flush();
        for i in 0..12 {
            assert_eq!(db.get(&format!("key-{i:02}")), Some(vec![i as u8; 300]));
        }
        assert_eq!(db.store.capacity("").object_count, 12);
    }
    for id in 0..4 {
        assert_eq!(disk.len(&format!("seg-{id:08}.dat")), 900);
    }
    let db = Db::open_with_options(&disk, opts);
    for i in 0..12 {
        assert_eq!(db.get(&format!("key-{i:02}")), Some(vec![i as u8; 300]));
    }
}

#[test]
fn oversized_single_object_gets_own_segment() {
    let disk = Disk::new();
    let opts = StoreOptions {
        segment_max_bytes: 1024,
    };
    {
        let mut db = Db::open_with_options(&disk, opts);
        db.put("big", &[0xEE; 5000]).unwrap();
        db.put("small", &[0x01; 16]).unwrap();
        db.flush();
        assert_eq!(db.get("big"), Some(vec![0xEE; 5000]));
        assert_eq!(db.get("small"), Some(vec![0x01; 16]));
    }
    assert_eq!(disk.len("seg-00000000.dat"), 5000);
    let db = Db::open_with_options(&disk, opts);
    assert_eq!(db.get("big"), Some(vec![0xEE; 5000]));
    assert_eq!(db.get("small"), Some(vec![0x01; 16]));
}

fn small_opts() -> StoreOptions {
    StoreOptions {
        segment_max_bytes: 2048,
    }
}

/// Three rounds of overwrites: rounds 0 and 1 become dead values.
fn overwrite_rounds(db: &mut Db) {
    for round in 0..3 {
        for i in 0..40 {
            let key = format!("k{i:03}");
            let value = vec![(i * 7 + round) as u8; 120];
            db.put(&key, &value).unwrap();
        }
        db.flush();
    }
}

fn check_last_round(db: &Db) {
    for i in 0..40 {
        let key = format!("k{i:03}");
        let want = vec![(i * 7 + 2) as u8; 120];
        assert_eq!(db.get(&key).unwrap(), want, "key {key}");
    }
}

#[test]
fn compaction_reclaims_dead_space_and_preserves_live_keys() {
    let disk = Disk::new();
    let opts = small_opts();
    let mut db = Db::open_with_options(&disk, opts);
    overwrite_rounds(&mut db);

    let committed = db.store.committed_lsn();
    let stage = db.compact_stage(committed).expect("eligible segment");
    assert!(stage.freed > 0, "compaction must reclaim dead bytes");
    let end_lsn = stage.records.last().map(|(l, _)| *l).unwrap();
    db.commit(end_lsn);
    let freed = db.compact_commit(stage);
    assert!(freed > 0);

    check_last_round(&db);
    assert_eq!(db.store.capacity("").object_count, 40);

    drop(db);
    let reopened = Db::open_with_options(&disk, opts);
    check_last_round(&reopened);
    assert_eq!(reopened.store.capacity("").object_count, 40);
}

#[test]
fn crash_before_commit_leaves_old_layout() {
    let disk = Disk::new();
    let opts = small_opts();
    {
        let mut db = Db::open_with_options(&disk, opts);
        overwrite_rounds(&mut db);
        let committed = db.store.committed_lsn();
        let stage = db.compact_stage(committed).expect("eligible segment");
        drop(stage);
    }
    let reopened = Db::open_with_options(&disk, opts);
    check_last_round(&reopened);
    for name in disk.names() {
        assert!(!name.ends_with(".tmp"), "orphan tmp file {name}");
    }
}

#[test]
fn horizon_protects_recent_dead_values() {
    let disk = Disk::new();
    let mut db = Db::open_with_options(&disk, small_opts());

    db.put("k", &vec![0x11; 400]).unwrap();
    db.flush();
    db.put("k", &vec![0x22; 400]).unwrap();
    for i in 0..8 {
        db.put(&format!("f{i}"), &vec![0x33; 400]).unwrap();
    }
    db.flush();

    // v1 (the first put, lsn 1) is dead; a horizon of 0 must not reclaim it.
    let none = db.compact_stage(0);
    assert!(
        none.is_none(),
        "horizon 0 must not reclaim recent dead values"
    );

    // At the full committed horizon the dead v1 is reclaimed.
    let committed = db.store.committed_lsn();
    let stage = db.compact_stage(committed).expect("eligible segment");
    assert!(stage.freed >= 400);
    let end = stage.records.last().map(|(l, _)| *l).unwrap();
    db.commit(end);
    db.compact_commit(stage);

    assert_eq!(db.get("k").unwrap(), vec![0x22; 400]);
    assert_eq!(db.store.capacity("").object_count, 9);
}

#[test]
fn crash_after_commit_uses_new_layout() {
    let disk = Disk::new();
    let opts = small_opts();
    {
        let mut db = Db::open_with_options(&disk, opts);
        overwrite_rounds(&mut db);
        let committed = db.store.committed_lsn();
        let stage = db.compact_stage(committed).expect("eligible segment");
        let end = stage.records.last().map(|(l, _)| *l).unwrap();
        db.commit(end);
        db.compact_commit(stage);
    }
    let reopened = Db::open_with_options(&disk, opts);
    check_last_round(&reopened);
    for name in disk.names() {
        assert!(!name.ends_with(".tmp"), "orphan tmp file {name}");
    }
}

#[test]
fn no_eligible_segment_returns_none() {
    let disk = Disk::new();
    let mut db = Db::open_with_options(&disk, small_opts());
    for i in 0..5 {
        db.put(&format!("k{i}"), &[i as u8; 100]).unwrap();
    }
    db.flush();
    let committed = db.store.committed_lsn();
    assert!(db.compact_stage(committed).is_none());
}

fn prefixes_of(key: &str) -> Vec<String> {
    let parts: Vec<&str> = key.split('/').filter(|s| !s.is_empty()).collect();
    let mut out = vec![String::new()];
    let mut prefix = String::new();
    for (i, part) in parts.iter().enumerate() {
        if i > 0 {
            prefix.push('/');
        }
        prefix.push_str(part);
        if i + 1 < parts.len() {
            out.push(prefix.clone());
        }
    }
    out
}

#[test]
fn aggregates_match_bruteforce_after_100k_puts() {
    const N: u64 = 100_000;
    let disk = Disk::new();
    let mut db = Db::open(&disk);
    db.keep_wal = false;
    let mut brute: HashMap<String, Aggregate> = HashMap::new();
    for i in 0..N {
        let key = format!("ns{:02}/s{:02}/k{i:06}", i % 40, i % 25);
        let value = vec![(i & 0xFF) as u8; 16];
        let len = value.len() as u64;
        for prefix in prefixes_of(&key) {
            let agg = brute.entry(prefix).or_default();
            agg.object_count += 1;
            agg.byte_count += len;
        }
        db.put(&key, &value).unwrap();
        if i % 10_000 == 9_999 {
            db.flush();
        }
    }
    db.flush();

    let expected = brute[&String::new()];
    let start = Instant::now();
    let got = db.store.capacity("");
    let elapsed = start.elapsed();
    assert_eq!(got, expected);
    assert!(
        elapsed < Duration::from_millis(1),
        "capacity(\"\") took {elapsed:?}"
    );
    assert_eq!(expected.object_count, N);
    assert_eq!(expected.byte_count, N * 16);

    for prefix in ["ns03/s07", "ns39/s24", "ns00/s00", "no/such/prefix"] {
        let got = db.store.capacity(prefix);
        let exp = brute.get(prefix).copied().unwrap_or_default();
        assert_eq!(got, exp, "prefix {prefix}");
    }
}

#[test]
fn readers_observe_only_whole_committed_values() {
    let disk = Disk::new();
    let mut db = Db::open(&disk);
    let view: StoreView<File> = db.store.read_view();
    let shared = view.share();
    let mut last: HashMap<String, Vec<u8>> = HashMap::new();
    for round in 0..200u64 {
        let key = format!("k{:03}", (round as usize) % 40);
        let value = vec![(round as u8).wrapping_mul(7); 128];
        db.put(&key, &value).unwrap();
        let before = view.get(&key).unwrap().map(read_place);
        assert_eq!(before, last.get(&key).cloned(), "round {round}");
        db.flush();
        let after = shared.get(&key).unwrap().map(read_place);
        assert_eq!(after, Some(value.clone()), "round {round}");
        assert_eq!(
            shared.get_upto(&key, u64::MAX).unwrap().map(read_place),
            Some(value.clone())
        );
        last.insert(key, value);
        assert_eq!(view.capacity("").object_count, last.len() as u64);
    }
    assert_eq!(view.keys_with_prefix("").len(), 40);
    let reopened = Db::open(&disk);
    for (key, value) in &last {
        assert_eq!(reopened.get(key).as_ref(), Some(value), "key {key}");
    }
}

#[test]
fn a_snapshot_does_not_change() {
    let disk = Disk::new();
    let mut db = Db::open(&disk);
    db.put("k", b"one").unwrap();
    db.flush();
    let snap = db.store.read_view().snapshot();
    db.put("k", b"two").unwrap();
    db.put("l", b"new").unwrap();
    db.flush();
    assert_eq!(snap.get("k").unwrap().map(read_place), Some(b"one".to_vec()));
    assert!(snap.get("l").unwrap().is_none());
    assert_eq!(db.get("k"), Some(b"two".to_vec()));
}

#[test]
fn staged_puts_are_not_read_until_committed() {
    let disk = Disk::new();
    let mut db = Db::open(&disk);
    let staged = db.stage_put("k", b"value").unwrap();
    assert_eq!(staged.object_id, 1);
    let lsns: Vec<u64> = staged.records.iter().map(|r| r.0).collect();
    assert_eq!(lsns, vec![1, 2]);
    db.sync_wal();
    assert_eq!(db.get("k"), None);
    db.commit(2);
    assert_eq!(db.get("k"), Some(b"value".to_vec()));
    assert_eq!(db.get_upto("k", 0), None);
    assert_eq!(db.get_upto("k", 1), Some(b"value".to_vec()));
    assert_eq!(db.store.committed_lsn(), 2);
    assert_eq!(db.store.last_commit_block(), 3);
    assert_eq!(db.store.applied_upto(), 3);
    assert_eq!(db.store.next_lsn(), 4);
}

#[test]
fn values_stay_apart_when_keys_are_overwritten() {
    let disk = Disk::new();
    let mut db = Db::open_with_options(&disk, small_opts());
    let mut want: BTreeMap<String, Vec<u8>> = BTreeMap::new();
    for i in 0..300usize {
        let key = format!("k{}", i % 17);
        let value = vec![(i % 251) as u8; (i * 13) % 90];
        db.put(&key, &value).unwrap();
        want.insert(key, value);
        if i % 9 == 0 {
            db.flush();
        }
    }
    db.flush();
    for (key, value) in &want {
        assert_eq!(db.get(key).as_ref(), Some(value), "key {key}");
    }
    let reopened = Db::open_with_options(&disk, small_opts());
    for (key, value) in &want {
        assert_eq!(reopened.get(key).as_ref(), Some(value), "key {key}");
    }
    assert_eq!(
        reopened.store.capacity(""),
        Aggregate {
            object_count: want.len() as u64,
            byte_count: want.values().map(|v| v.len() as u64).sum(),
        }
    );
}

#[test]
fn capacity_equals_a_recount_of_the_listing() {
    let disk = Disk::new();
    let mut db = Db::open(&disk);
    for (key, len) in [("a/x/1", 3usize), ("a/x/2", 4), ("a/y/1", 5), ("ab/z", 6), ("a/x/1", 9)] {
        db.put(key, &vec![1; len]).unwrap();
    }
    db.flush();
    for prefix in ["", "a", "a/x", "ab", "nothing"] {
        let keys = db.store.keys_with_prefix(prefix);
        let bytes: u64 = keys.iter().map(|k| k.1 as u64).sum();
        assert_eq!(
            db.store.capacity(prefix),
            Aggregate {
                object_count: keys.len() as u64,
                byte_count: bytes,
            },
            "prefix {prefix}"
        );
    }
    assert_eq!(
        db.store.keys_with_prefix("a"),
        vec![
            ("a/x/1".to_string(), 9),
            ("a/x/2".to_string(), 4),
            ("a/y/1".to_string(), 5)
        ]
    );
    assert_eq!(db.store.keys(), vec!["a/x/1", "a/x/2", "a/y/1", "ab/z"]);
    assert_eq!(db.store.committed_keys().len(), 4);
}

#[test]
fn damage_behind_a_commit_loses_only_what_follows() {
    let disk = Disk::new();
    {
        let mut db = Db::open(&disk);
        db.put("k1", b"first").unwrap();
        db.flush();
        db.put("k2", b"second").unwrap();
        db.flush();
    }
    let wal = disk.file(WAL_FILE);
    wal.borrow_mut()[3 * 4096 + 30] ^= 0x04;
    let db = Db::open(&disk);
    assert_eq!(db.get("k1"), Some(b"first".to_vec()));
    assert_eq!(db.get("k2"), None);
    assert_eq!(disk.len(WAL_FILE), 3 * 4096);
    assert_eq!(disk.len("seg-00000000.dat"), 5);
}

#[test]
fn a_missing_or_short_segment_is_reported() {
    let disk = Disk::new();
    {
        let mut db = Db::open(&disk);
        db.put("k", &[7; 50]).unwrap();
        db.flush();
    }
    disk.file("seg-00000000.dat").borrow_mut().truncate(49);
    let e = Db::try_open(&disk, StoreOptions::default()).err().unwrap();
    assert_eq!(
        corrupt_text(e),
        "segment seg-00000000.dat is shorter than its committed length"
    );
    disk.remove("seg-00000000.dat");
    let e = Db::try_open(&disk, StoreOptions::default()).err().unwrap();
    assert_eq!(
        corrupt_text(e),
        "segment seg-00000000.dat referenced by WAL is missing"
    );
}

#[test]
fn a_key_that_fits_no_block_is_refused() {
    let disk = Disk::new();
    let mut db = Db::open(&disk);
    let long = "x".repeat(4072);
    let e = db.put(&long, b"v").err().unwrap();
    assert!(matches!(e, StoreError::RecordTooLarge));
    assert_eq!(e.message(), "record exceeds block payload capacity");
    // The deltas of a deep path need more room than the put itself.
    let deep = "abcdefg/".repeat(100);
    assert!(matches!(db.put(&deep, b"v"), Err(StoreError::RecordTooLarge)));
    db.put("short", b"v").unwrap();
    db.flush();
    assert_eq!(db.store.keys(), vec!["short"]);
    let reopened = Db::open(&disk);
    assert_eq!(reopened.get("short"), Some(b"v".to_vec()));
}

#[test]
fn an_io_error_is_carried_through() {
    let disk = Disk::new();
    let mut db = Db::open_with_options(
        &disk,
        StoreOptions {
            segment_max_bytes: 4,
        },
    );
    let io = SegmentIo {
        opened: None,
        result: Err(StoreError::from(std::io::Error::new(
            std::io::ErrorKind::Other,
            "disk on fire",
        ))),
    };
    let e = db.store.stage_put("k", b"v", io).err().unwrap();
    assert_eq!(e.message(), "io error: disk on fire");
    assert!(db.store.flush_lsn().is_none());
    db.put("k", b"four").unwrap();
    let io = SegmentIo {
        opened: None,
        result: Ok(()),
    };
    let e = db.store.stage_put("k", b"next", io).err().unwrap();
    assert_eq!(e.message(), "store corruption: active segment not open");
    db.flush();
    assert_eq!(db.get("k"), Some(b"four".to_vec()));
}

#[test]
fn a_put_that_fails_half_way_harms_nothing() {
    let disk = Disk::new();
    let mut db = Db::open_with_options(&disk, small_opts());
    db.put("a", &[1; 1000]).unwrap();
    db.flush();
    // The segment is sealed for it, and some of its bytes are written.
    let value = [2; 1500];
    assert!(db.store.has_room(1500));
    let target = db.store.put_target(1500);
    assert_eq!((target.segment, target.offset), (1, 0));
    let file = disk.file(&seg_name(target.segment));
    write_at(&file, target.offset, &value[..700]);
    let io = SegmentIo {
        opened: Some(file),
        result: Err(StoreError::Corrupt("cut short".to_string())),
    };
    let e = db.store.stage_put("b", &value, io).err().unwrap();
    assert_eq!(corrupt_text(e), "cut short");
    db.put("c", &[3; 20]).unwrap();
    db.flush();
    let check = |db: &Db| {
        assert_eq!(db.get("a"), Some(vec![1; 1000]));
        assert_eq!(db.get("b"), None);
        assert_eq!(db.get("c"), Some(vec![3; 20]));
    };
    check(&db);
    drop(db);
    let db = Db::open_with_options(&disk, small_opts());
    check(&db);
    assert_eq!(disk.len("seg-00000001.dat"), 20);
}

#[test]
fn a_put_that_does_not_exist_has_no_value() {
    let disk = Disk::new();
    let mut db = Db::open(&disk);
    db.put("k", b"v").unwrap();
    db.flush();
    assert_eq!(db.store.value_at(1).map(read_place).unwrap(), b"v".to_vec());
    let e = db.store.value_at(9).err().unwrap();
    assert_eq!(corrupt_text(e), "no put at lsn 9");
}

#[test]
fn puts_during_a_compaction_are_kept() {
    let disk = Disk::new();
    let mut db = Db::open_with_options(&disk, small_opts());
    overwrite_rounds(&mut db);
    let horizon = db.store.committed_lsn();
    let stage = db.compact_stage(horizon).unwrap();
    // Overwrites of values that are being moved, and enough of them for the
    // active segment to be sealed.
    for i in 0..20 {
        db.put(&format!("k{i:03}"), &vec![0xA0 + i as u8; 200]).unwrap();
    }
    db.flush();
    db.compact_commit(stage);
    let check = |db: &Db| {
        for i in 0..40 {
            let want = if i < 20 {
                vec![0xA0 + i as u8; 200]
            } else {
                vec![(i * 7 + 2) as u8; 120]
            };
            assert_eq!(db.get(&format!("k{i:03}")).unwrap(), want, "key {i}");
        }
        let total = db.store.capacity("");
        assert_eq!((total.object_count, total.byte_count), (40, 20 * 200 + 20 * 120));
    };
    check(&db);
    drop(db);
    check(&Db::open_with_options(&disk, small_opts()));
}

#[test]
fn overwritten_values_above_the_horizon_can_still_be_sent() {
    let disk = Disk::new();
    let mut db = Db::open_with_options(&disk, small_opts());
    let mut rounds = Vec::new();
    let mut ends = Vec::new();
    for round in 0..3u8 {
        let mut ids = Vec::new();
        for i in 0..20u8 {
            ids.push(db.put(&format!("k{i}"), &[round * 50 + i; 130]).unwrap());
        }
        db.flush();
        rounds.push(ids);
        ends.push(db.store.committed_lsn());
    }
    let horizon = ends[0];
    let mut compactions = 0;
    while let Some(stage) = db.compact_stage(horizon) {
        let end = stage.records.last().unwrap().0;
        db.commit(end);
        db.compact_commit(stage);
        compactions += 1;
    }
    assert!(compactions > 0);
    for (round, ids) in rounds.iter().enumerate().skip(1) {
        for (i, id) in ids.iter().enumerate() {
            let got = db.store.value_at(*id).map(read_place).unwrap();
            assert_eq!(got, vec![(round * 50 + i) as u8; 130]);
        }
    }
    for id in &rounds[0] {
        assert!(db.store.value_at(*id).is_err());
    }
}

#[test]
fn a_committed_compaction_that_was_not_completed_is_recovered() {
    let disk = Disk::new();
    {
        let mut db = Db::open_with_options(&disk, small_opts());
        overwrite_rounds(&mut db);
        let horizon = db.store.committed_lsn();
        let stage = db.compact_stage(horizon).unwrap();
        let end = stage.records.last().unwrap().0;
        db.commit(end);
        assert!(disk.names().contains(&"seg-00000000.dat".to_string()));
    }
    let db = Db::open_with_options(&disk, small_opts());
    check_last_round(&db);
    assert_eq!(db.store.capacity("").object_count, 40);
}

#[test]
fn a_store_goes_on_after_each_of_several_crashes() {
    let disk = Disk::new();
    let mut last = 0;
    for round in 0..6u8 {
        let mut db = Db::open_with_options(&disk, small_opts());
        for i in 0..round {
            assert_eq!(db.get(&format!("r{i}")), Some(vec![i; 700]), "round {round}");
        }
        assert_eq!(db.store.capacity("").object_count, u64::from(round));
        assert!(db.store.next_lsn() > last, "an LSN was used twice");
        db.put(&format!("r{round}"), &vec![round; 700]).unwrap();
        db.flush();
        // Logged and written, never committed.
        db.put("lost", &vec![0xEE; 900]).unwrap();
        db.sync_wal();
        last = db.store.next_lsn() - 1;
    }
    let db = Db::open_with_options(&disk, small_opts());
    assert_eq!(db.get("lost"), None);
    assert_eq!(db.store.capacity("").byte_count, 6 * 700);
}

/// Sends everything in the leader's log to a follower.
fn replicate(leader: &Db, follower: &mut Db) {
    let wal = leader.disk.file(WAL_FILE).borrow().clone();
    let from = follower.store.last_commit_block();
    for (lsn, rec) in Store::<File>::scan_wal(&wal) {
        if lsn <= from {
            continue;
        }
        let data = match &rec {
            Record::Put { .. } => Some(leader.store.value_at(lsn).map(read_place).unwrap()),
            _ => None,
        };
        follower.apply(lsn, &rec, data.as_deref()).unwrap();
    }
    follower.sync_all();
}

#[test]
fn a_follower_ends_up_with_the_leaders_layout() {
    let leader_disk = Disk::new();
    let follower_disk = Disk::new();
    let mut leader = Db::open_with_options(&leader_disk, small_opts());
    let mut follower = Db::open(&follower_disk);
    for i in 0..60usize {
        leader.put(&format!("o/{}", i % 25), &vec![i as u8; 100]).unwrap();
        if i % 10 == 9 {
            leader.flush();
        }
        if i == 29 {
            replicate(&leader, &mut follower);
        }
    }
    replicate(&leader, &mut follower);
    let check = |follower: &Db| {
        for key in leader.store.keys() {
            assert_eq!(leader.get(&key), follower.get(&key), "key {key}");
        }
        assert_eq!(leader.store.capacity("o"), follower.store.capacity("o"));
        assert_eq!(leader.store.committed_lsn(), follower.store.committed_lsn());
        assert_eq!(leader.store.next_lsn(), follower.store.next_lsn());
        assert_eq!(
            leader.store.last_commit_block(),
            follower.store.last_commit_block()
        );
    };
    check(&follower);
    for name in leader_disk.names() {
        if name == MARK_FILE {
            continue;
        }
        assert_eq!(
            *leader_disk.file(&name).borrow(),
            *follower_disk.file(&name).borrow(),
            "file {name}"
        );
    }
    drop(follower);
    check(&Db::open(&follower_disk));
}

#[test]
fn a_follower_replaces_segments_like_its_leader() {
    let leader_disk = Disk::new();
    let follower_disk = Disk::new();
    let mut leader = Db::open_with_options(&leader_disk, small_opts());
    let mut follower = Db::open_with_options(&follower_disk, small_opts());
    overwrite_rounds(&mut leader);
    replicate(&leader, &mut follower);
    let horizon = leader.store.committed_lsn();
    let stage = leader.compact_stage(horizon).unwrap();
    let end = stage.records.last().unwrap().0;
    leader.commit(end);
    leader.compact_commit(stage);
    replicate(&leader, &mut follower);
    check_last_round(&leader);
    check_last_round(&follower);
    let segments = |disk: &Disk| -> Vec<String> {
        disk.names().into_iter().filter(|n| n.ends_with(".dat")).collect()
    };
    assert_eq!(segments(&leader_disk), segments(&follower_disk));
    drop(follower);
    check_last_round(&Db::open_with_options(&follower_disk, small_opts()));
}

#[test]
fn a_follower_that_is_restarted_again_and_again_catches_up() {
    let leader_disk = Disk::new();
    let follower_disk = Disk::new();
    let mut leader = Db::open_with_options(&leader_disk, small_opts());
    for round in 0..5usize {
        for i in 0..30usize {
            let value = vec![(round * 40 + i) as u8; 90 + round];
            leader.put(&format!("o/{i}"), &value).unwrap();
        }
        leader.flush();
        let mut follower = Db::open_with_options(&follower_disk, small_opts());
        replicate(&leader, &mut follower);
        let horizon = follower.store.committed_lsn();
        if let Some(stage) = leader.compact_stage(horizon) {
            let end = stage.records.last().unwrap().0;
            leader.commit(end);
            leader.compact_commit(stage);
        }
    }
    let mut follower = Db::open_with_options(&follower_disk, small_opts());
    replicate(&leader, &mut follower);
    for i in 0..30usize {
        let want = vec![(4 * 40 + i) as u8; 94];
        assert_eq!(leader.get(&format!("o/{i}")), Some(want.clone()));
        assert_eq!(follower.get(&format!("o/{i}")), Some(want));
    }
    assert_eq!(leader.store.capacity("o"), follower.store.capacity("o"));
}

#[test]
fn a_follower_refuses_what_does_not_fit() {
    let disk = Disk::new();
    let mut db = Db::open(&disk);
    let put = Record::Put {
        key: "k".to_string(),
        len: 3,
        stripe_id: 1,
    };
    let e = db.apply(1, &put, None).err().unwrap();
    assert_eq!(corrupt_text(e), "Put record without value data");
    let e = db.apply(1, &put, Some(b"four")).err().unwrap();
    assert_eq!(corrupt_text(e), "Put value length mismatch");
    db.apply(1, &put, Some(b"abc")).unwrap();
    let seal = Record::SegmentSeal {
        segment_id: 4,
        next_segment_id: 5,
    };
    let e = db.apply(2, &seal, None).err().unwrap();
    assert_eq!(
        corrupt_text(e),
        "seal for segment 4 but follower active segment is 0"
    );
    let remap = |new: u64, lsn: u64, len: u32| Record::SegmentRemap {
        new_segment_id: new,
        entries: vec![shardvault::wal::RemapEntry {
            key: "k".to_string(),
            lsn,
            offset: 0,
            len,
        }],
    };
    let e = db.apply(2, &remap(2, 1, 3), None).err().unwrap();
    assert_eq!(corrupt_text(e), "remap without swap");
    let swap = Record::SegmentSwap {
        old_segment_id: 0,
        new_segment_id: 2,
    };
    db.apply(3, &swap, None).unwrap();
    let e = db.apply(4, &swap, None).err().unwrap();
    assert_eq!(corrupt_text(e), "overlapping segment swap");
    let e = db.apply(5, &remap(3, 1, 3), None).err().unwrap();
    assert_eq!(corrupt_text(e), "remap target mismatch");
    let e = db.apply(6, &remap(2, 1, 2), None).err().unwrap();
    assert_eq!(corrupt_text(e), "remap source mismatch");
    assert_eq!(db.store.waiting_swap(), Some((0, 2)));
    let e = db.apply(7, &remap(2, 99, 3), None).err().unwrap();
    assert_eq!(corrupt_text(e), "remap source missing for lsn 99");
}

#[test]
fn segment_names_are_read_back() {
    assert_eq!(seg_name(7), "seg-00000007.dat");
    assert_eq!(tmp_name(7), "seg-00000007.dat.tmp");
    assert_eq!(parse_segment_name("seg-00000007.dat"), Some(7));
    assert_eq!(parse_segment_name("seg-99999999.dat"), Some(99_999_999));
    assert_eq!(seg_name(100_000_000), "seg-100000000.dat");
    for bad in ["seg-100000000.dat", "seg-0000007.dat", "seg-0000000x.dat", "wal.log", ""] {
        assert_eq!(parse_segment_name(bad), None, "name {bad}");
    }
}

#[test]
fn a_put_behind_a_commit_is_not_read() {
    let disk = Disk::new();
    let mut db = Db::open(&disk);
    let view = db.store.read_view();
    db.stage_put("a", b"one").unwrap();
    let b = db.stage_put("b", b"other").unwrap();
    assert_eq!(b.object_id, 3);
    db.commit(2);
    assert_eq!(db.get("a"), Some(b"one".to_vec()));
    assert_eq!(db.get("b"), None);
    assert_eq!(db.get_upto("b", 10), None);
    assert_eq!(view.get("b").unwrap().map(read_place), None);
    assert_eq!(view.get("a").unwrap().map(read_place), Some(b"one".to_vec()));
    let one = Aggregate {
        object_count: 1,
        byte_count: 3,
    };
    assert_eq!(db.store.capacity(""), one);
    assert_eq!(view.capacity(""), one);
    assert_eq!(db.store.keys(), vec!["a"]);
    assert_eq!(db.store.committed_keys(), vec![("a".to_string(), 3)]);
    assert_eq!(db.store.keys_with_prefix("b"), Vec::new());
    db.stage_put("a", b"newer").unwrap();
    db.commit(4);
    assert_eq!(db.get("a"), Some(b"one".to_vec()));
    assert_eq!(db.get("b"), Some(b"other".to_vec()));
    assert_eq!(view.capacity("").byte_count, 8);
    db.commit(8);
    assert_eq!(db.get("a"), Some(b"newer".to_vec()));
    assert_eq!(view.get("a").unwrap().map(read_place), Some(b"newer".to_vec()));
}

#[test]
fn recovery_shows_only_what_is_committed() {
    let disk = Disk::new();
    {
        let mut db = Db::open(&disk);
        db.stage_put("a", b"old").unwrap();
        db.commit(2);
        db.stage_put("a", b"new").unwrap();
        db.stage_put("b", b"b").unwrap();
        db.commit(2);
        assert_eq!(db.get("a"), Some(b"old".to_vec()));
    }
    let mut db = Db::open(&disk);
    assert_eq!(db.store.committed_lsn(), 2);
    assert_eq!(db.get("a"), Some(b"old".to_vec()));
    assert_eq!(db.get("b"), None);
    assert_eq!(db.store.capacity("").byte_count, 3);
    db.commit(7);
    assert_eq!(db.get("a"), Some(b"new".to_vec()));
    assert_eq!(db.get("b"), Some(b"b".to_vec()));
    assert_eq!(db.store.capacity("").byte_count, 4);
}

#[test]
fn a_follower_shows_only_what_is_committed() {
    let leader_disk = Disk::new();
    let follower_disk = Disk::new();
    let mut leader = Db::open(&leader_disk);
    let mut follower = Db::open(&follower_disk);
    for (key, value) in [("a", b"one"), ("b", b"two")] {
        for (lsn, rec) in leader.stage_put(key, value).unwrap().records {
            let data = matches!(rec, Record::Put { .. });
            let value: &[u8] = value;
            follower.apply(lsn, &rec, if data { Some(value) } else { None }).unwrap();
        }
    }
    follower.sync_all();
    assert_eq!(follower.get("a"), None);
    leader.commit(2);
    let wal = leader_disk.file(WAL_FILE).borrow().clone();
    let (lsn, rec) = Store::<File>::scan_wal(&wal).pop().unwrap();
    assert_eq!(rec, Record::Commit { lsn: 2 });
    follower.apply(lsn, &rec, None).unwrap();
    assert_eq!(follower.store.last_commit_block(), 0);
    assert_eq!(follower.get("a"), None);
    follower.sync_all();
    assert_eq!(follower.store.last_commit_block(), 5);
    assert_eq!(follower.get("a"), Some(b"one".to_vec()));
    assert_eq!(follower.get("b"), None);
}

#[test]
fn lsns_are_not_reused_by_a_second_recovery() {
    let disk = Disk::new();
    {
        let mut db = Db::open(&disk);
        db.put("a", b"one").unwrap();
        db.commit(2);
        db.put("b", b"lost").unwrap();
        db.sync_wal();
        assert_eq!(db.store.next_lsn(), 6);
    }
    for _ in 0..3 {
        let db = Db::open(&disk);
        assert_eq!(db.store.next_lsn(), 6);
        assert_eq!(disk.len(WAL_FILE), 3 * 4096);
        assert_eq!(db.get("b"), None);
    }
    let mut db = Db::open(&disk);
    assert_eq!(db.put("c", b"three").unwrap(), 6);
    db.flush();
    assert_eq!(Db::open(&disk).get("c"), Some(b"three".to_vec()));
}

#[test]
fn a_refused_record_does_not_count_as_applied() {
    let disk = Disk::new();
    let mut db = Db::open(&disk);
    let put = Record::Put {
        key: "k".to_string(),
        len: 3,
        stripe_id: 7,
    };
    let e = db.apply(7, &put, None).err().unwrap();
    assert_eq!(corrupt_text(e), "Put record without value data");
    assert_eq!(db.store.next_lsn(), 1);
    assert_eq!(db.store.applied_upto(), 0);
    db.sync_all();
    assert!(matches!(
        sync_ack_frame(&db.store),
        Frame::SyncAck { lsn: 0 }
    ));
    db.apply(7, &put, Some(b"abc")).unwrap();
    db.sync_all();
    assert!(matches!(
        sync_ack_frame(&db.store),
        Frame::SyncAck { lsn: 7 }
    ));
}

#[test]
fn a_compaction_changes_no_value_and_refuses_what_it_dropped() {
    let disk = Disk::new();
    let mut db = Db::open_with_options(&disk, small_opts());
    overwrite_rounds(&mut db);
    let horizon = db.store.committed_lsn();
    let keys = db.store.keys();
    let before: Vec<_> = keys.iter().map(|k| db.get(k)).collect();
    let puts: Vec<u64> = (1..db.store.next_lsn())
        .filter(|lsn| db.store.value_at(*lsn).is_ok())
        .collect();
    let values: Vec<_> = puts
        .iter()
        .map(|lsn| db.store.value_at(*lsn).map(read_place).unwrap())
        .collect();
    let stage = db.compact_stage(horizon).unwrap();
    let end = stage.records.last().unwrap().0;
    db.commit(end);
    let freed = db.compact_commit(stage);
    let check = |db: &Db| {
        for (key, value) in keys.iter().zip(&before) {
            assert_eq!(&db.get(key), value, "key {key}");
        }
        let mut lost = 0;
        for (lsn, value) in puts.iter().zip(&values) {
            match db.store.value_at(*lsn).ok().and_then(try_read) {
                Some(found) => assert_eq!(&found, value, "put {lsn}"),
                None => lost += value.len() as u64,
            }
        }
        assert_eq!(lost, freed);
    };
    assert!(freed > 0);
    check(&db);
    for lsn in &puts {
        if let Err(e) = db.store.value_at(*lsn) {
            assert_eq!(corrupt_text(e), format!("no put at lsn {lsn}"));
        }
    }
    drop(db);
    check(&Db::open_with_options(&disk, small_opts()));
}

#[test]
fn a_client_reads_what_was_acknowledged() {
    let disk = Disk::new();
    let mut db = Db::open(&disk);
    let cfg = Config {
        id: 0,
        addr: "a".to_string(),
        peers: vec!["a".to_string(), "b".to_string(), "c".to_string()],
        dir: "d".to_string(),
        role: ROLE_LEADER,
    };
    let mut leader = Leader::new(&cfg, db.store.next_lsn());
    let request = Frame::PutReq {
        id: 11,
        key: "k".to_string(),
        value: b"value".to_vec(),
    };
    let (id, key, value) = match leader.handle_client(request, 0) {
        Work::Put { id, key, value } => (id, key, value),
        _ => panic!("a put was asked for"),
    };
    let staged = db.stage_put(&key, &value).unwrap();
    let p = Leader::propose(staged.records, Some(value));
    db.sync_wal();
    let p = leader.advance(p, Outcome::Synced(Ok(())));
    let p = match ended(leader.advance(p, Outcome::Polled { expired: false })) {
        Err(p) => p,
        Ok(_) => panic!("no follower has acknowledged"),
    };
    leader.sync_ack(0, 2);
    let p = leader.advance(p, Outcome::Polled { expired: false });
    assert!(matches!(p, Proposal::Agreed { end: 2 }));
    db.commit(2);
    let p = leader.advance(p, Outcome::Committed(Ok(db.store.next_lsn() - 1)));
    let reply = match ended(p) {
        Ok(res) => put_reply(id, res),
        Err(_) => panic!("the put is decided"),
    };
    assert!(matches!(reply, Frame::PutOk { id: 11 }));
    db.stage_put("other", b"x").unwrap();
    let request = Frame::GetReq {
        id: 12,
        key: "k".to_string(),
    };
    let reply = match leader.handle_client(request, 0) {
        Work::Get { id, key, upto } => get_reply(id, Ok(db.get_upto(&key, upto))),
        _ => panic!("a get was asked for"),
    };
    match reply {
        Frame::GetOk { id, value } => assert_eq!((id, value), (12, Some(b"value".to_vec()))),
        _ => panic!("a get was asked for"),
    }
}

#[test]
fn a_refused_put_is_answered_with_the_reason() {
    let res = ended(Proposal::Refused {
        msg: "quorum lost".to_string(),
    });
    match res {
        Ok(res) => match put_reply(4, res) {
            Frame::PutErr { id, msg } => assert_eq!((id, msg.as_str()), (4, "quorum lost")),
            _ => panic!("the put failed"),
        },
        Err(_) => panic!("the proposal has ended"),
    }
}

fn append(lsn: Lsn, rec: Record, data: Option<&[u8]>) -> Frame {
    Frame::Append {
        lsn,
        rec,
        data: data.map(|d| d.to_vec()),
    }
}

fn put_of(key: &str, len: u32, lsn: Lsn) -> Record {
    Record::Put {
        key: key.to_string(),
        len,
        stripe_id: lsn,
    }
}

/// Takes one frame, as a follower does. Gives the reply.
fn serve(db: &mut Db, link: &mut FollowerStream, frame: Frame) -> Option<Frame> {
    match link.take(&db.store, frame) {
        FollowerWork::Apply { lsn, rec, data } => {
            let res = db.apply(lsn, &rec, data.as_deref());
            link.applied(&res);
            None
        }
        FollowerWork::Sync => {
            db.sync_all();
            link.synced(&db.store, &Ok(()))
        }
        FollowerWork::Nothing => None,
    }
}

#[test]
fn a_follower_acknowledges_after_a_sync() {
    let disk = Disk::new();
    let mut db = Db::open(&disk);
    let (mut link, first) = FollowerStream::start(&db.store);
    assert!(matches!(first, Frame::NeedFrom { lsn: 1 }));
    let put = append(1, put_of("k", 3, 1), Some(b"abc"));
    assert!(serve(&mut db, &mut link, put).is_none());
    let again = append(1, put_of("k", 3, 1), Some(b"abc"));
    assert!(serve(&mut db, &mut link, again).is_none());
    assert_eq!(db.store.next_lsn(), 2);
    let commit = append(2, Record::Commit { lsn: 1 }, None);
    assert!(serve(&mut db, &mut link, commit).is_none());
    let ack = serve(&mut db, &mut link, Frame::SyncBarrier { lsn: 2 });
    assert!(matches!(ack, Some(Frame::SyncAck { lsn: 2 })));
    assert_eq!(db.get("k"), Some(b"abc".to_vec()));
    assert_eq!(db.store.last_commit_block(), 2);
    let (_, next) = FollowerStream::start(&db.store);
    assert!(matches!(next, Frame::NeedFrom { lsn: 3 }));
}

#[test]
fn an_error_ends_a_followers_stream() {
    let disk = Disk::new();
    let mut db = Db::open(&disk);
    let (mut link, _) = FollowerStream::start(&db.store);
    let bad = append(1, put_of("k", 3, 1), None);
    assert!(serve(&mut db, &mut link, bad).is_none());
    let good = append(2, put_of("k", 3, 2), Some(b"abc"));
    assert!(serve(&mut db, &mut link, good).is_none());
    assert_eq!(db.store.applied_upto(), 0);
    let ack = serve(&mut db, &mut link, Frame::SyncBarrier { lsn: 2 });
    assert!(ack.is_none());
    let (mut link, _) = FollowerStream::start(&db.store);
    let failed = Err(StoreError::Corrupt("disk".to_string()));
    assert!(link.synced(&db.store, &failed).is_none());
    let good = append(2, put_of("k", 3, 2), Some(b"abc"));
    assert!(matches!(
        link.take(&db.store, good),
        FollowerWork::Nothing
    ));
}

#[test]
fn a_followers_frames_become_work() {
    assert!(matches!(
        dialer_step(Frame::SyncAck { lsn: 4 }),
        LinkWork::Ack { lsn: 4 }
    ));
    assert!(matches!(
        dialer_step(Frame::NeedFrom { lsn: 5 }),
        LinkWork::Backfill { from: 5 }
    ));
    assert!(matches!(
        dialer_step(Frame::StatusReq),
        LinkWork::Nothing
    ));
}

#[test]
fn what_a_view_has_seen_it_goes_on_seeing() {
    let disk = Disk::new();
    let mut db = Db::open_with_options(&disk, small_opts());
    overwrite_rounds(&mut db);
    let view = db.store.read_view();
    let shared = view.share();
    let keys = db.store.keys();
    let count = view.capacity("").object_count;
    let horizon = db.store.committed_lsn();
    let stage = db.compact_stage(horizon).unwrap();
    let end = stage.records.last().unwrap().0;
    db.commit(end);
    db.compact_commit(stage);
    db.put("more", b"x").unwrap();
    db.flush();
    for key in &keys {
        assert!(view.get(key).unwrap().is_some(), "key {key}");
        assert!(shared.get_upto(key, u64::MAX).unwrap().is_some(), "key {key}");
        assert!(view.get_upto(key, 0).unwrap().is_none(), "key {key}");
    }
    assert_eq!(view.capacity("").object_count, count + 1);
}
