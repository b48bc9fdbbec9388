//! Frames exchanged between clients and nodes, and between the leader and its
//! followers.
//!
//! Wire format: `u32` little-endian payload length, followed by the payload,
//! which encodes a [`Frame`]. The order of the variants below is that of
//! their tags on the wire.

use vstd::bytes::*;
use vstd::prelude::*;
use vstd::string::*;

use crate::wal::{Record, RecordModel};

verus! {

pub const ROLE_LEADER: u8 = 0;

pub const ROLE_FOLLOWER: u8 = 1;

/// The length that a frame's payload is not to exceed: 64 MiB.
pub const MAX_FRAME: usize = 67_108_864;

#[derive(Debug)]
pub enum Frame {
    Hello { id: u64, role: u8 },
    PutReq { id: u64, key: String, value: Vec<u8> },
    PutOk { id: u64 },
    PutErr { id: u64, msg: String },
    GetReq { id: u64, key: String },
    GetOk { id: u64, value: Option<Vec<u8>> },
    Append { lsn: u64, rec: Record, data: Option<Vec<u8>> },
    SyncBarrier { lsn: u64 },
    SyncAck { lsn: u64 },
    NeedFrom { lsn: u64 },
    StatusReq,
    StatusOk { commit_index: u64, matches: Vec<(u64, u64)> },
    ProbeFsync,
    ProbeFsyncResp { count: u64 },
    Compact,
    CompactDone { freed: u64 },
    ListReq { id: u64, prefix: String },
    ListOk { id: u64, keys: Vec<(String, u32)> },
    CapacityReq { id: u64, prefix: String },
    CapacityOk { id: u64, aggregate: (u64, u64), brute: (u64, u64) },
    SimulateFailure { node_id: u64 },
    SimulateFailureDone,
}

/// What a [`Frame`] says.
#[verifier::ext_equal]
pub ghost enum FrameModel {
    Hello { id: u64, role: u8 },
    PutReq { id: u64, key: Seq<char>, value: Seq<u8> },
    PutOk { id: u64 },
    PutErr { id: u64, msg: Seq<char> },
    GetReq { id: u64, key: Seq<char> },
    GetOk { id: u64, value: Option<Seq<u8>> },
    Append { lsn: u64, rec: RecordModel, data: Option<Seq<u8>> },
    SyncBarrier { lsn: u64 },
    SyncAck { lsn: u64 },
    NeedFrom { lsn: u64 },
    StatusReq,
    StatusOk { commit_index: u64, matches: Seq<(u64, u64)> },
    ProbeFsync,
    ProbeFsyncResp { count: u64 },
    Compact,
    CompactDone { freed: u64 },
    ListReq { id: u64, prefix: Seq<char> },
    ListOk { id: u64, keys: Seq<(Seq<char>, u32)> },
    CapacityReq { id: u64, prefix: Seq<char> },
    CapacityOk { id: u64, aggregate: (u64, u64), brute: (u64, u64) },
    SimulateFailure { node_id: u64 },
    SimulateFailureDone,
}

/// Bytes that may be missing.
pub open spec fn bytes_of(data: Option<Vec<u8>>) -> Option<Seq<u8>> {
    match data {
        Some(d) => Some(d@),
        None => None,
    }
}

/// Keys with the lengths of their values.
pub open spec fn keys_of(keys: Seq<(String, u32)>) -> Seq<(Seq<char>, u32)> {
    keys.map_values(|k: (String, u32)| (k.0@, k.1))
}

impl View for Frame {
    type V = FrameModel;

    open spec fn view(&self) -> FrameModel {
        match self {
            Frame::Hello { id, role } => FrameModel::Hello { id: *id, role: *role },
            Frame::PutReq { id, key, value } => FrameModel::PutReq {
                id: *id,
                key: key@,
                value: value@,
            },
            Frame::PutOk { id } => FrameModel::PutOk { id: *id },
            Frame::PutErr { id, msg } => FrameModel::PutErr { id: *id, msg: msg@ },
            Frame::GetReq { id, key } => FrameModel::GetReq { id: *id, key: key@ },
            Frame::GetOk { id, value } => FrameModel::GetOk { id: *id, value: bytes_of(*value) },
            Frame::Append { lsn, rec, data } => FrameModel::Append {
                lsn: *lsn,
                rec: rec@,
                data: bytes_of(*data),
            },
            Frame::SyncBarrier { lsn } => FrameModel::SyncBarrier { lsn: *lsn },
            Frame::SyncAck { lsn } => FrameModel::SyncAck { lsn: *lsn },
            Frame::NeedFrom { lsn } => FrameModel::NeedFrom { lsn: *lsn },
            Frame::StatusReq => FrameModel::StatusReq,
            Frame::StatusOk { commit_index, matches } => FrameModel::StatusOk {
                commit_index: *commit_index,
                matches: matches@,
            },
            Frame::ProbeFsync => FrameModel::ProbeFsync,
            Frame::ProbeFsyncResp { count } => FrameModel::ProbeFsyncResp { count: *count },
            Frame::Compact => FrameModel::Compact,
            Frame::CompactDone { freed } => FrameModel::CompactDone { freed: *freed },
            Frame::ListReq { id, prefix } => FrameModel::ListReq { id: *id, prefix: prefix@ },
            Frame::ListOk { id, keys } => FrameModel::ListOk { id: *id, keys: keys_of(keys@) },
            Frame::CapacityReq { id, prefix } => FrameModel::CapacityReq {
                id: *id,
                prefix: prefix@,
            },
            Frame::CapacityOk { id, aggregate, brute } => FrameModel::CapacityOk {
                id: *id,
                aggregate: *aggregate,
                brute: *brute,
            },
            Frame::SimulateFailure { node_id } => FrameModel::SimulateFailure {
                node_id: *node_id,
            },
            Frame::SimulateFailureDone => FrameModel::SimulateFailureDone,
        }
    }
}

/// Why a frame cannot be sent or received.
#[derive(Debug, Clone, Copy, PartialEq, Eq)]
pub enum FrameError {
    TooLarge,
}

impl FrameError {
    /// The error in words.
    pub fn message(&self) -> (text: String)
        ensures
            text@ == "frame too large"@,
    {
        "frame too large".to_string()
    }
}

/// The bytes of a frame on the wire.
pub open spec fn wire_bytes(body: Seq<u8>) -> Seq<u8> {
    spec_u32_to_le_bytes(body.len() as u32) + body
}

/// The bytes that send a frame with this payload.
pub fn frame_bytes(body: &[u8]) -> (res: Result<Vec<u8>, FrameError>)
    ensures
        match res {
            Ok(bytes) => body@.len() <= MAX_FRAME && bytes@ == wire_bytes(body@),
            Err(e) => body@.len() > MAX_FRAME && e == FrameError::TooLarge,
        },
{
    if body.len() > MAX_FRAME {
        return Err(FrameError::TooLarge);
    }
    let mut bytes: Vec<u8> = Vec::new();
    bytes.extend_from_slice(u32_to_le_bytes(body.len() as u32).as_slice());
    bytes.extend_from_slice(body);
    assert(bytes@ =~= wire_bytes(body@));
    Ok(bytes)
}

/// The length of the payload that follows the four bytes `head`.
pub fn frame_len(head: &[u8; 4]) -> (res: Result<usize, FrameError>)
    ensures
        match res {
            Ok(n) => n == spec_u32_from_le_bytes(head@) && n <= MAX_FRAME,
            Err(e) => spec_u32_from_le_bytes(head@) > MAX_FRAME && e == FrameError::TooLarge,
        },
{
    assert(head@.subrange(0, 4) =~= head@);
    let n: usize = u32_from_le_bytes(&head[0..4]) as usize;
    if n > MAX_FRAME {
        return Err(FrameError::TooLarge);
    }
    Ok(n)
}

/// The first four bytes of a frame that was sent give the length of the rest,
/// so frames that follow each other are told apart.
pub proof fn lemma_wire_bytes(body: Seq<u8>, rest: Seq<u8>)
    requires
        body.len() <= MAX_FRAME,
    ensures
        ({
            let bytes = wire_bytes(body) + rest;
            &&& spec_u32_from_le_bytes(bytes.take(4)) == body.len()
            &&& bytes.skip(4).take(body.len() as int) == body
            &&& bytes.skip((4 + body.len()) as int) == rest
        }),
{
    lemma_auto_spec_u32_to_from_le_bytes();
    let head = spec_u32_to_le_bytes(body.len() as u32);
    assert(head.len() == 4);
    let bytes = wire_bytes(body) + rest;
    assert(bytes.take(4) =~= head);
    assert(bytes.skip(4).take(body.len() as int) =~= body);
    assert(bytes.skip((4 + body.len()) as int) =~= rest);
}

} // verus!
