use shardvault::block;
use shardvault::error::StoreError;
use shardvault::rollup::AggDeltaEntry;
use shardvault::wal::{
    decode_record, encode_record, mark_bytes, read_mark, Record, RemapEntry, Wal,
};

fn put_rec(key: &str, len: u32, stripe: u64) -> Record {
    Record::Put {
        key: key.to_string(),
        len,
        stripe_id: stripe,
    }
}

fn agg_rec() -> Record {
    Record::AggDelta {
        deltas: vec![AggDeltaEntry {
            prefix: String::new(),
            object_count_delta: 1,
            byte_count_delta: 5,
        }],
    }
}

fn commit_rec(lsn: u64) -> Record {
    Record::Commit { lsn }
}

/// Opens the WAL in `file`, and truncates the file as the WAL says.
fn open(file: &mut Vec<u8>) -> Wal {
    let (wal, len) = Wal::open(file, 0);
    file.truncate(len as usize);
    wal
}

fn sync(wal: &mut Wal, file: &mut Vec<u8>) {
    if let Some(bytes) = wal.unsynced() {
        file.extend_from_slice(bytes);
    }
    wal.sync(Ok(())).unwrap();
}

#[test]
fn replay_empty_wal() {
    let (records, high_water) = Wal::replay(&[]);
    assert_eq!(records, Vec::new());
    assert_eq!(high_water, 0);
}

#[test]
fn append_sync_replay_roundtrip() {
    let mut file = Vec::new();
    {
        let mut wal = open(&mut file);
        let l1 = wal.append(&put_rec("a/b", 5, 1)).unwrap();
        let l2 = wal.append(&agg_rec()).unwrap();
        wal.append(&commit_rec(l2)).unwrap();
        sync(&mut wal, &mut file);
        assert_eq!(l1, 1);
        assert_eq!(l2, 2);
    }
    let (records, high_water) = Wal::replay(&file);
    assert_eq!(
        records,
        vec![put_rec("a/b", 5, 1), agg_rec(), commit_rec(2)]
    );
    assert_eq!(high_water, 3);
}

#[test]
fn replay_stops_at_torn_block() {
    let mut file = Vec::new();
    {
        let mut wal = open(&mut file);
        wal.append(&put_rec("a", 3, 1)).unwrap();
        wal.append(&commit_rec(1)).unwrap();
        sync(&mut wal, &mut file);
    }
    file.extend_from_slice(&[0xAB; 100]);
    let (records, high_water) = Wal::replay(&file);
    assert_eq!(records, vec![put_rec("a", 3, 1), commit_rec(1)]);
    assert_eq!(high_water, 2);
    let _wal = open(&mut file);
    assert_eq!(file.len(), 2 * block::BLOCK_SIZE);
}

#[test]
fn replay_stops_at_crc_failure() {
    let mut file = Vec::new();
    {
        let mut wal = open(&mut file);
        wal.append(&put_rec("a", 3, 1)).unwrap();
        wal.append(&commit_rec(1)).unwrap();
        sync(&mut wal, &mut file);
    }
    let mut blk = [0u8; 4096];
    blk.copy_from_slice(&file[0..4096]);
    blk[block::HEADER_SIZE + 2] ^= 0xFF;
    file.extend_from_slice(&blk);
    let (records, high_water) = Wal::replay(&file);
    assert_eq!(records, vec![put_rec("a", 3, 1), commit_rec(1)]);
    assert_eq!(high_water, 2);
    let _wal = open(&mut file);
    assert_eq!(file.len(), 2 * block::BLOCK_SIZE);
}

#[test]
fn records_after_last_commit_are_discarded() {
    let mut file = Vec::new();
    {
        let mut wal = open(&mut file);
        wal.append(&put_rec("a", 3, 1)).unwrap();
        wal.append(&agg_rec()).unwrap();
        wal.append(&commit_rec(1)).unwrap();
        sync(&mut wal, &mut file);
        wal.append(&put_rec("b", 3, 4)).unwrap();
        sync(&mut wal, &mut file);
    }
    let (records, high_water) = Wal::replay(&file);
    assert_eq!(records, vec![put_rec("a", 3, 1), agg_rec(), commit_rec(1)]);
    assert_eq!(high_water, 4);
    let wal = open(&mut file);
    assert_eq!(wal.next_lsn(), 5);
    assert_eq!(file.len(), 3 * block::BLOCK_SIZE);
}

#[test]
fn a_scan_keeps_what_was_not_committed() {
    let mut file = Vec::new();
    let mut wal = open(&mut file);
    wal.append(&put_rec("a", 3, 1)).unwrap();
    wal.append(&commit_rec(1)).unwrap();
    wal.append_at(&put_rec("b", 3, 9), 9).unwrap();
    sync(&mut wal, &mut file);
    assert_eq!(
        Wal::scan(&file),
        vec![
            (1, put_rec("a", 3, 1)),
            (2, commit_rec(1)),
            (9, put_rec("b", 3, 9))
        ]
    );
    assert_eq!(wal.next_lsn(), 10);
    let (records, high_water) = Wal::replay_with_lsns(&file);
    assert_eq!(records, vec![(1, put_rec("a", 3, 1)), (2, commit_rec(1))]);
    assert_eq!(high_water, 9);
}

#[test]
fn a_failed_sync_keeps_the_buffer() {
    let mut wal = Wal::open(&[], 0).0;
    wal.append(&put_rec("a", 3, 1)).unwrap();
    let before = wal.unsynced().unwrap().to_vec();
    let e = std::io::Error::new(std::io::ErrorKind::Other, "no space");
    let res = wal.sync(Err(StoreError::Io(e)));
    assert_eq!(res.err().unwrap().message(), "io error: no space");
    assert_eq!(wal.unsynced().unwrap(), before);
    wal.sync(Ok(())).unwrap();
    assert!(wal.unsynced().is_none());
}

#[test]
fn a_commit_is_written_with_what_it_covers() {
    let mut wal = Wal::open(&[], 0).0;
    wal.append(&put_rec("a", 3, 1)).unwrap();
    let bytes = wal.unsynced_with_commit(1);
    assert_eq!(
        Wal::replay(&bytes).0,
        vec![put_rec("a", 3, 1), commit_rec(1)]
    );
    assert_eq!(wal.next_lsn(), 2);
}

fn every_kind_of_record() -> Vec<Record> {
    vec![
        put_rec("dir/\u{00FC}ber", 77, 8),
        commit_rec(u64::MAX),
        Record::SegmentSeal {
            segment_id: 3,
            next_segment_id: 4,
        },
        agg_rec(),
        Record::SegmentSwap {
            old_segment_id: 1,
            new_segment_id: 9,
        },
        Record::SegmentRemap {
            new_segment_id: 9,
            entries: vec![
                RemapEntry {
                    key: "a".to_string(),
                    lsn: 1,
                    offset: 0,
                    len: 5,
                },
                RemapEntry {
                    key: String::new(),
                    lsn: 6,
                    offset: 5,
                    len: 0,
                },
            ],
        },
    ]
}

#[test]
fn records_are_decoded_as_they_were_encoded() {
    for rec in every_kind_of_record() {
        let bytes = encode_record(&rec).unwrap();
        assert_eq!(decode_record(&bytes).unwrap(), rec);
        assert_eq!(rec.copy(), rec);
    }
}

#[test]
fn a_put_record_has_a_fixed_layout() {
    let bytes = encode_record(&put_rec("ab", 0x0102, 3)).unwrap();
    assert_eq!(
        bytes,
        vec![0, 3, 0, 0, 0, 0, 0, 0, 0, 2, 1, 0, 0, 2, 0, b'a', b'b']
    );
}

fn decode_error(bytes: &[u8]) -> String {
    match decode_record(bytes) {
        Err(StoreError::Corrupt(msg)) => msg,
        other => panic!("unexpected result {other:?}"),
    }
}

#[test]
fn bad_records_are_refused() {
    assert_eq!(decode_error(&[]), "truncated record");
    assert_eq!(decode_error(&[0, 5]), "truncated record");
    assert_eq!(decode_error(&[99, 0, 0]), "unknown record tag 99");
    let mut bytes = encode_record(&put_rec("ab", 1, 1)).unwrap();
    bytes[15] = 0xFF;
    assert_eq!(decode_error(&bytes), "invalid utf-8 in key");
    let mut bytes = encode_record(&Record::AggDelta {
        deltas: vec![AggDeltaEntry {
            prefix: "p".to_string(),
            object_count_delta: 1,
            byte_count_delta: 1,
        }],
    })
    .unwrap();
    bytes[5] = 0x80;
    assert_eq!(decode_error(&bytes), "invalid utf-8 in prefix");
}

#[test]
fn a_record_that_fits_no_block_is_refused() {
    let long = "k".repeat(4072);
    assert!(matches!(
        encode_record(&put_rec(&long, 1, 1)),
        Err(StoreError::RecordTooLarge)
    ));
    let mut wal = Wal::open(&[], 0).0;
    assert!(wal.append(&put_rec(&long, 1, 1)).is_err());
    assert_eq!(wal.next_lsn(), 1);
}

#[test]
fn a_mark_keeps_lsns_from_being_reused() {
    let mut file = Vec::new();
    {
        let mut wal = open(&mut file);
        wal.append(&put_rec("a", 3, 1)).unwrap();
        wal.append(&agg_rec()).unwrap();
        wal.append(&commit_rec(1)).unwrap();
        wal.append(&put_rec("b", 3, 4)).unwrap();
        sync(&mut wal, &mut file);
    }
    let mut mark = read_mark(None).unwrap();
    for _ in 0..3 {
        let (wal, len) = Wal::open(&file, mark);
        assert_eq!(wal.next_lsn(), 5);
        assert_eq!(len, 3 * block::BLOCK_SIZE as u64);
        mark = read_mark(Some(&mark_bytes(wal.next_lsn() - 1))).unwrap();
        assert_eq!(mark, 4);
        file.truncate(len as usize);
    }
    let (wal, _) = Wal::open(&file, 0);
    assert_eq!(wal.next_lsn(), 4);
    let (wal, _) = Wal::open(&[], 9);
    assert_eq!(wal.next_lsn(), 10);
}

#[test]
fn a_mark_of_the_wrong_length_is_refused() {
    for bytes in [vec![], vec![1; 7], vec![1; 9]] {
        match read_mark(Some(&bytes)) {
            Err(StoreError::Corrupt(msg)) => assert_eq!(msg, "LSN mark of the wrong length"),
            other => panic!("unexpected {other:?}"),
        }
    }
    assert_eq!(mark_bytes(0x0102), vec![2, 1, 0, 0, 0, 0, 0, 0]);
    assert_eq!(read_mark(Some(&[2, 1, 0, 0, 0, 0, 0, 0])).unwrap(), 0x0102);
}
