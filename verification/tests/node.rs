use shardvault::error::StoreError;
use shardvault::fault;
use shardvault::node::{
    apply_step, capacity_reply, compact_reply, enqueue, get_reply, is_leader, need_from, put_reply,
    run, store_options, Config, Duty, FollowerWork, Leader, Outcome, Proposal, Work,
};
use shardvault::protocol::{
    frame_bytes, frame_len, Frame, FrameError, MAX_FRAME, ROLE_FOLLOWER, ROLE_LEADER,
};
use shardvault::rollup::Aggregate;
use shardvault::wal::{Lsn, Record};
use std::collections::VecDeque;

fn config(id: u64, peers: usize, role: u8) -> Config {
    Config {
        id,
        addr: "127.0.0.1:0".to_string(),
        peers: (0..peers).map(|i| format!("127.0.0.1:{}", 7000 + i)).collect(),
        dir: "data".to_string(),
        role,
    }
}

fn put(key: &str, len: u32, lsn: u64) -> Record {
    Record::Put {
        key: key.to_string(),
        len,
        stripe_id: lsn,
    }
}

fn batch(lsn: Lsn) -> Vec<(Lsn, Record)> {
    vec![
        (lsn, put("k", 3, lsn)),
        (lsn + 1, Record::AggDelta { deltas: Vec::new() }),
    ]
}

/// Everything that is waiting to be sent to follower `i`, in words.
fn sent(leader: &mut Leader, i: usize) -> Vec<String> {
    let mut out = Vec::new();
    while let Some(frame) = leader.next_frame(i) {
        out.push(match frame {
            Frame::Append { lsn, rec, data } => match rec {
                Record::Put { .. } => format!("put {lsn} {:?}", data.unwrap()),
                Record::Commit { lsn: upto } => format!("commit {lsn} of {upto}"),
                _ => format!("append {lsn} {}", data.is_some()),
            },
            Frame::SyncBarrier { lsn } => format!("barrier {lsn}"),
            other => panic!("unexpected frame {other:?}"),
        });
    }
    out
}

#[test]
fn the_role_decides_the_duty() {
    assert_eq!(run(&config(0, 3, ROLE_LEADER)), Ok(Duty::Lead));
    assert_eq!(run(&config(1, 3, ROLE_FOLLOWER)), Ok(Duty::Follow));
    assert_eq!(run(&config(1, 3, 7)), Err("unknown role 7".to_string()));
}

#[test]
fn a_leader_links_to_every_other_peer() {
    let leader = Leader::new(&config(1, 3, ROLE_LEADER), 5);
    assert_eq!(leader.commit_index(), 4);
    assert_eq!(leader.follower_count(), 2);
    assert_eq!(leader.follower(0), (0, &"127.0.0.1:7000".to_string()));
    assert_eq!(leader.follower(1), (2, &"127.0.0.1:7002".to_string()));
}

#[test]
fn a_put_is_decided_by_a_majority() {
    let mut leader = Leader::new(&config(0, 3, ROLE_LEADER), 1);
    let p = Leader::propose(batch(1), Some(b"abc".to_vec()));
    let p = leader.advance(p, Outcome::Synced(Ok(())));
    assert!(matches!(p, Proposal::Shipped { end: 2 }));
    let p = leader.advance(p, Outcome::Polled { expired: false });
    assert!(matches!(p, Proposal::Shipped { end: 2 }));
    leader.sync_ack(1, 1);
    let p = leader.advance(p, Outcome::Polled { expired: false });
    assert!(matches!(p, Proposal::Shipped { end: 2 }));
    leader.sync_ack(1, 2);
    let p = leader.advance(p, Outcome::Polled { expired: false });
    assert!(matches!(p, Proposal::Agreed { end: 2 }));
    assert_eq!(leader.commit_index(), 0);
    let p = leader.advance(p, Outcome::Committed(Ok(3)));
    assert!(matches!(p, Proposal::Decided { end: 2, block: 3 }));
    assert_eq!(leader.commit_index(), 3);
    for i in 0..2 {
        assert_eq!(
            sent(&mut leader, i),
            vec![
                "put 1 [97, 98, 99]",
                "append 2 false",
                "barrier 2",
                "commit 3 of 2",
                "barrier 3"
            ]
        );
    }
}

#[test]
fn a_put_is_refused_when_quorum_is_lost() {
    let mut leader = Leader::new(&config(0, 3, ROLE_LEADER), 1);
    leader.set_alive(0, true);
    let p = Leader::propose(batch(1), Some(b"abc".to_vec()));
    let p = leader.advance(p, Outcome::Synced(Ok(())));
    // A follower that can still be reached is waited for.
    let p = leader.advance(p, Outcome::Polled { expired: true });
    assert!(matches!(p, Proposal::Shipped { .. }));
    leader.set_alive(0, false);
    let p = leader.advance(p, Outcome::Polled { expired: false });
    assert!(matches!(p, Proposal::Shipped { .. }));
    match leader.advance(p, Outcome::Polled { expired: true }) {
        Proposal::Refused { msg } => assert_eq!(msg, "quorum lost"),
        _ => panic!("the put must be refused"),
    }
    assert_eq!(leader.commit_index(), 0);
}

#[test]
fn half_of_an_even_cluster_is_no_majority() {
    let mut leader = Leader::new(&config(0, 4, ROLE_LEADER), 1);
    let p = Leader::propose(batch(1), None);
    let p = leader.advance(p, Outcome::Synced(Ok(())));
    leader.sync_ack(0, 2);
    let p = leader.advance(p, Outcome::Polled { expired: false });
    assert!(matches!(p, Proposal::Shipped { .. }));
    leader.sync_ack(2, 2);
    let p = leader.advance(p, Outcome::Polled { expired: false });
    assert!(matches!(p, Proposal::Agreed { .. }));
}

#[test]
fn a_leader_alone_is_its_own_majority() {
    let mut leader = Leader::new(&config(0, 1, ROLE_LEADER), 1);
    let p = Leader::propose(batch(1), None);
    let p = leader.advance(p, Outcome::Synced(Ok(())));
    let p = leader.advance(p, Outcome::Polled { expired: false });
    assert!(matches!(p, Proposal::Agreed { end: 2 }));
}

#[test]
fn store_errors_refuse_a_proposal() {
    let mut leader = Leader::new(&config(0, 1, ROLE_LEADER), 1);
    let p = Leader::propose(batch(1), None);
    match leader.advance(p, Outcome::Synced(Err(StoreError::RecordTooLarge))) {
        Proposal::Refused { msg } => assert_eq!(msg, "record exceeds block payload capacity"),
        _ => panic!("the sync failed"),
    }
    let p = Leader::propose(batch(1), None);
    let p = leader.advance(p, Outcome::Synced(Ok(())));
    let p = leader.advance(p, Outcome::Polled { expired: false });
    let e = StoreError::Corrupt("bad disk".to_string());
    match leader.advance(p, Outcome::Committed(Err(e))) {
        Proposal::Refused { msg } => assert_eq!(msg, "store corruption: bad disk"),
        _ => panic!("the commit failed"),
    }
}

#[test]
fn the_horizon_of_a_leader_alone_is_its_commit() {
    let alone = Leader::new(&config(0, 1, ROLE_LEADER), 8);
    assert_eq!(alone.horizon(), 7);
}

#[test]
fn the_horizon_is_what_every_follower_has_committed() {
    let mut leader = Leader::new(&config(0, 3, ROLE_LEADER), 8);
    assert_eq!(leader.horizon(), 0);
    leader.sync_ack(0, 7);
    assert_eq!(leader.horizon(), 0);
    leader.sync_ack(1, 9);
    assert_eq!(leader.horizon(), 7);
    leader.sync_ack(1, 3);
    assert_eq!(leader.horizon(), 7);
}

#[test]
fn a_backfill_goes_in_front_of_newer_frames() {
    let mut leader = Leader::new(&config(0, 2, ROLE_LEADER), 6);
    leader.send_batch(&batch(4), Some(b"old"), 5);
    leader.send_batch(&batch(6), Some(b"new"), 7);
    let log = vec![
        (1, put("a", 1, 1)),
        (2, Record::Commit { lsn: 1 }),
        (3, put("b", 2, 3)),
        (5, Record::Commit { lsn: 3 }),
        (6, put("k", 3, 6)),
    ];
    let b = leader.backfill(log, 3);
    assert_eq!(b.commit, 5);
    assert_eq!(b.records, vec![(3, put("b", 2, 3)), (5, Record::Commit { lsn: 3 })]);
    assert!(leader.handle_backfill(0, b, vec![Some(vec![9, 9]), None]));
    assert_eq!(
        sent(&mut leader, 0),
        vec![
            "put 3 [9, 9]",
            "commit 5 of 3",
            "barrier 5",
            "put 6 [110, 101, 119]",
            "append 7 false",
            "barrier 7"
        ]
    );
}

#[test]
fn a_backfill_without_a_value_is_not_sent() {
    let mut leader = Leader::new(&config(0, 2, ROLE_LEADER), 6);
    leader.send_batch(&batch(4), Some(b"old"), 5);
    let b = leader.backfill(vec![(3, put("b", 2, 3))], 0);
    assert!(!leader.handle_backfill(0, b, vec![None]));
    assert_eq!(sent(&mut leader, 0).len(), 3);
}

#[test]
fn requests_become_work() {
    let mut leader = Leader::new(&config(0, 3, ROLE_LEADER), 8);
    leader.sync_ack(0, 5);
    let get = Frame::GetReq {
        id: 4,
        key: "k".to_string(),
    };
    assert!(matches!(
        leader.handle_client(get, 0),
        Work::Get { id: 4, upto: 7, .. }
    ));
    match leader.handle_client(Frame::StatusReq, 0) {
        Work::Reply(Frame::StatusOk {
            commit_index,
            matches,
        }) => {
            assert_eq!(commit_index, 7);
            assert_eq!(matches, vec![(1, 5), (2, 0)]);
        }
        _ => panic!("a status was asked for"),
    }
    assert!(matches!(
        leader.handle_client(Frame::ProbeFsync, 12),
        Work::Reply(Frame::ProbeFsyncResp { count: 12 })
    ));
    assert!(matches!(
        leader.handle_client(Frame::Compact, 0),
        Work::Compact { horizon: 0 }
    ));
    assert!(matches!(
        leader.handle_client(Frame::PutOk { id: 1 }, 0),
        Work::Nothing
    ));
    match leader.handle_client(
        Frame::PutReq {
            id: 3,
            key: "a".to_string(),
            value: vec![1],
        },
        0,
    ) {
        Work::Put { id, key, value } => assert_eq!((id, key.as_str(), value), (3, "a", vec![1])),
        _ => panic!("a put was asked for"),
    }
    assert!(matches!(
        leader.handle_client(
            Frame::ListReq {
                id: 5,
                prefix: "p".to_string()
            },
            0
        ),
        Work::List { id: 5, .. }
    ));
    assert!(matches!(
        leader.handle_client(
            Frame::CapacityReq {
                id: 6,
                prefix: "p".to_string()
            },
            0
        ),
        Work::Capacity { id: 6, .. }
    ));
}

#[test]
fn a_failed_follower_is_not_counted() {
    let mut leader = Leader::new(&config(0, 3, ROLE_LEADER), 1);
    leader.set_alive(0, true);
    leader.set_alive(1, true);
    assert!(!leader.is_failed(2));
    assert!(matches!(
        leader.handle_client(Frame::SimulateFailure { node_id: 2 }, 0),
        Work::Reply(Frame::SimulateFailureDone)
    ));
    assert!(leader.is_failed(2));
    assert!(!leader.is_failed(1));
    leader.handle_client(Frame::SimulateFailure { node_id: 1 }, 0);
    let p = Leader::propose(batch(1), None);
    let p = leader.advance(p, Outcome::Synced(Ok(())));
    let p = leader.advance(p, Outcome::Polled { expired: true });
    assert!(matches!(p, Proposal::Refused { .. }));
}

#[test]
fn replies_say_what_came_of_it() {
    assert!(matches!(put_reply(1, Ok(())), Frame::PutOk { id: 1 }));
    match put_reply(2, Err("quorum lost".to_string())) {
        Frame::PutErr { id, msg } => assert_eq!((id, msg.as_str()), (2, "quorum lost")),
        other => panic!("unexpected frame {other:?}"),
    }
    match get_reply(3, Ok(Some(vec![1, 2]))) {
        Frame::GetOk { id, value } => assert_eq!((id, value), (3, Some(vec![1, 2]))),
        other => panic!("unexpected frame {other:?}"),
    }
    match get_reply(4, Err(StoreError::RecordTooLarge)) {
        Frame::GetOk { id, value } => assert_eq!((id, value), (4, None)),
        other => panic!("unexpected frame {other:?}"),
    }
    assert!(matches!(compact_reply(Ok(9)), Frame::CompactDone { freed: 9 }));
    assert!(matches!(
        compact_reply(Err("no".to_string())),
        Frame::CompactDone { freed: 0 }
    ));
    let agg = Aggregate {
        object_count: 2,
        byte_count: 30,
    };
    let keys = vec![("a".to_string(), 10u32), ("b".to_string(), 21)];
    match capacity_reply(5, agg, &keys) {
        Frame::CapacityOk {
            id,
            aggregate,
            brute,
        } => assert_eq!((id, aggregate, brute), (5, (2, 30), (2, 31))),
        other => panic!("unexpected frame {other:?}"),
    }
}

#[test]
fn a_follower_skips_what_it_has_applied() {
    let frame = |lsn: u64| Frame::Append {
        lsn,
        rec: put("k", 1, lsn),
        data: Some(vec![1]),
    };
    assert!(matches!(apply_step(frame(7), 7), FollowerWork::Nothing));
    match apply_step(frame(8), 7) {
        FollowerWork::Apply { lsn, rec, data } => {
            assert_eq!((lsn, rec, data), (8, put("k", 1, 8), Some(vec![1])));
        }
        _ => panic!("the record is new"),
    }
    assert!(matches!(
        apply_step(Frame::SyncBarrier { lsn: 1 }, 7),
        FollowerWork::Sync
    ));
    assert!(matches!(
        apply_step(Frame::StatusReq, 7),
        FollowerWork::Nothing
    ));
    assert!(matches!(need_from(7), Frame::NeedFrom { lsn: 8 }));
    assert!(is_leader(&Frame::Hello {
        id: 1,
        role: ROLE_LEADER
    }));
    assert!(!is_leader(&Frame::Hello {
        id: 1,
        role: ROLE_FOLLOWER
    }));
    assert!(!is_leader(&Frame::StatusReq));
}

#[test]
fn frames_queue_in_order() {
    let mut queue = VecDeque::new();
    enqueue(&mut queue, vec![Frame::SyncBarrier { lsn: 1 }]);
    enqueue(
        &mut queue,
        vec![Frame::SyncBarrier { lsn: 2 }, Frame::SyncBarrier { lsn: 3 }],
    );
    let lsns: Vec<u64> = queue
        .into_iter()
        .map(|f| match f {
            Frame::SyncBarrier { lsn } => lsn,
            other => panic!("unexpected frame {other:?}"),
        })
        .collect();
    assert_eq!(lsns, vec![1, 2, 3]);
}

#[test]
fn frames_carry_their_length() {
    let bytes = frame_bytes(&[7; 300]).unwrap();
    assert_eq!(&bytes[0..5], &[44, 1, 0, 0, 7]);
    assert_eq!(bytes.len(), 304);
    assert_eq!(frame_len(&[44, 1, 0, 0]), Ok(300));
    assert_eq!(frame_len(&[0, 0, 0, 4]), Ok(MAX_FRAME));
    assert_eq!(frame_len(&[1, 0, 0, 4]), Err(FrameError::TooLarge));
    assert_eq!(
        frame_bytes(&vec![0; MAX_FRAME + 1]),
        Err(FrameError::TooLarge)
    );
    assert_eq!(FrameError::TooLarge.message(), "frame too large");
}

#[test]
fn options_come_from_a_variable() {
    assert_eq!(store_options(None).segment_max_bytes, 16 * 1024 * 1024);
    assert_eq!(store_options(Some("4096")).segment_max_bytes, 4096);
    assert_eq!(store_options(Some("+7")).segment_max_bytes, 7);
    assert_eq!(
        store_options(Some("18446744073709551615")).segment_max_bytes,
        u64::MAX
    );
    for bad in ["", "+", "4k", "-1", "18446744073709551616"] {
        assert_eq!(
            store_options(Some(bad)).segment_max_bytes,
            16 * 1024 * 1024,
            "value {bad}"
        );
    }
}

#[test]
fn the_process_aborts_at_the_chosen_fsync() {
    let mut never = fault::from_var(true, None);
    assert!(!fault::maybe_fail(&mut never));
    assert_eq!(fault::count(&never), 1);
    let mut third = fault::from_var(true, Some("3"));
    assert!(!fault::maybe_fail(&mut third));
    assert!(!fault::maybe_fail(&mut third));
    assert!(fault::maybe_fail(&mut third));
    assert!(!fault::maybe_fail(&mut third));
    assert_eq!(fault::count(&third), 4);
    assert!(!fault::maybe_fail(&mut fault::from_var(true, Some("x"))));
}

#[test]
fn without_fault_injection_nothing_is_counted() {
    let mut off = fault::from_var(false, Some("1"));
    assert!(!fault::maybe_fail(&mut off));
    assert!(!fault::maybe_fail(&mut off));
    assert_eq!(fault::count(&off), 0);
}
